//! The report artifact codec: a prime sequence is written as one decimal
//! integer per line, each line ended by a newline byte, and can be parsed
//! back to exactly the original sequence.

use vstd::prelude::*;
use vstd::arithmetic::div_mod::lemma_fundamental_div_mod;
use crate::primes::primes_in_range_spec;
use crate::primes::primes_in_range;

verus! {

/// The ASCII bytes `'0'` through `'9'`.
pub open spec fn is_digit_byte(b: u8) -> bool {
    48 <= b <= 57
}

/// The numeric value of a digit byte.
pub open spec fn digit_val(b: u8) -> nat {
    (b - 48) as nat
}

/// The decimal digits of `n`, most significant first, as ASCII bytes.
pub open spec fn dec_digits(n: nat) -> Seq<u8>
    decreases n,
{
    if n < 10 {
        seq![(n + 48) as u8]
    } else {
        dec_digits(n / 10) + seq![((n % 10) + 48) as u8]
    }
}

/// The whole report artifact: each value's decimal digits followed by a
/// newline byte, in sequence order.
pub open spec fn render_spec(values: Seq<u32>) -> Seq<u8>
    decreases values.len(),
{
    if values.len() == 0 {
        Seq::empty()
    } else {
        dec_digits(values[0] as nat) + seq![10u8] + render_spec(values.drop_first())
    }
}

/// The length of the first line: the number of bytes before the first
/// newline, or the whole length when no newline occurs.
pub open spec fn line_len(bytes: Seq<u8>) -> nat
    decreases bytes.len(),
{
    if bytes.len() == 0 {
        0
    } else if bytes[0] == 10 {
        0
    } else {
        1 + line_len(bytes.drop_first())
    }
}

/// The value of a digit string read left to right.
pub open spec fn num_val(line: Seq<u8>) -> nat
    decreases line.len(),
{
    if line.len() == 0 {
        0
    } else {
        num_val(line.drop_last()) * 10 + digit_val(line.last())
    }
}

/// A line that parses as one `u32`: nonempty, digits only, value in range.
pub open spec fn valid_number_line(line: Seq<u8>) -> bool {
    &&& line.len() > 0
    &&& forall|i: int| 0 <= i < line.len() ==> is_digit_byte(#[trigger] line[i])
    &&& num_val(line) <= u32::MAX
}

/// Parses a whole artifact: a sequence of newline-terminated number lines.
/// `None` when a line is empty, holds a non-digit, overflows `u32`, or the
/// last line lacks its newline.
pub open spec fn parse_lines_spec(bytes: Seq<u8>) -> Option<Seq<u32>>
    decreases bytes.len(),
{
    if bytes.len() == 0 {
        Some(Seq::empty())
    } else {
        let k = line_len(bytes) as int;
        if k >= bytes.len() {
            None
        } else if valid_number_line(bytes.subrange(0, k)) {
            match parse_lines_spec(bytes.subrange(k + 1, bytes.len() as int)) {
                Some(rest) => Some(seq![num_val(bytes.subrange(0, k)) as u32] + rest),
                None => None,
            }
        } else {
            None
        }
    }
}

/// `line_len` never exceeds the length, every byte before it is not a
/// newline, and the byte at it (when inside) is a newline.
pub proof fn lemma_line_len_bounds(bytes: Seq<u8>)
    ensures
        line_len(bytes) <= bytes.len(),
        line_len(bytes) < bytes.len() ==> bytes[line_len(bytes) as int] == 10,
        forall|i: int| 0 <= i < line_len(bytes) ==> #[trigger] bytes[i] != 10,
    decreases bytes.len(),
{
    if bytes.len() == 0 {
    } else if bytes[0] == 10 {
    } else {
        lemma_line_len_bounds(bytes.drop_first());
        assert forall|i: int| 0 <= i < line_len(bytes) implies #[trigger] bytes[i] != 10 by {
            if i > 0 {
                assert(bytes.drop_first()[i - 1] != 10);
            }
        }
    }
}

/// Bytes known not to be newlines push the first newline past them.
pub proof fn lemma_line_len_at_least(bytes: Seq<u8>, m: int)
    requires
        0 <= m <= bytes.len(),
        forall|i: int| 0 <= i < m ==> #[trigger] bytes[i] != 10,
    ensures
        line_len(bytes) >= m,
    decreases m,
{
    if m > 0 {
        assert(bytes[0] != 10);
        assert forall|i: int| 0 <= i < m - 1 implies #[trigger] bytes.drop_first()[i] != 10 by {
            assert(bytes[i + 1] != 10);
        }
        lemma_line_len_at_least(bytes.drop_first(), m - 1);
    }
}

/// When the first `m` bytes are not newlines and byte `m` is one, the first
/// line is exactly those `m` bytes.
pub proof fn lemma_line_len_exact(bytes: Seq<u8>, m: int)
    requires
        0 <= m <= bytes.len(),
        forall|i: int| 0 <= i < m ==> #[trigger] bytes[i] != 10,
        m == bytes.len() || bytes[m] == 10,
    ensures
        line_len(bytes) == m,
{
    lemma_line_len_at_least(bytes, m);
    lemma_line_len_bounds(bytes);
    if line_len(bytes) > m {
        assert(m < bytes.len());
        assert(bytes[m] != 10);
    }
}

/// The decimal digits of a number are a nonempty run of digit bytes.
pub proof fn lemma_dec_digits_shape(n: nat)
    ensures
        dec_digits(n).len() >= 1,
        forall|i: int| 0 <= i < dec_digits(n).len() ==> is_digit_byte(#[trigger] dec_digits(n)[i]),
    decreases n,
{
    if n >= 10 {
        lemma_dec_digits_shape(n / 10);
        assert forall|i: int| 0 <= i < dec_digits(n).len() implies is_digit_byte(
            #[trigger] dec_digits(n)[i],
        ) by {
            if i < dec_digits(n / 10).len() {
                assert(dec_digits(n)[i] == dec_digits(n / 10)[i]);
            }
        }
    }
}

/// Reading the decimal digits of `n` back as a number gives `n`.
pub proof fn lemma_num_val_dec_digits(n: nat)
    ensures
        num_val(dec_digits(n)) == n,
    decreases n,
{
    if n < 10 {
        assert(num_val(Seq::<u8>::empty()) == 0);
        assert(dec_digits(n).drop_last() =~= Seq::<u8>::empty());
        assert(dec_digits(n).last() == (n + 48) as u8);
        assert(digit_val((n + 48) as u8) == n);
    } else {
        lemma_num_val_dec_digits(n / 10);
        assert(dec_digits(n).drop_last() =~= dec_digits(n / 10));
        assert(dec_digits(n).last() == ((n % 10) + 48) as u8);
        assert(digit_val(((n % 10) + 48) as u8) == n % 10);
        assert(num_val(dec_digits(n)) == (n / 10) * 10 + n % 10);
        lemma_fundamental_div_mod(n as int, 10);
    }
}

/// Rendering one more value appends its digits and a newline.
pub proof fn lemma_render_push(values: Seq<u32>, x: u32)
    ensures
        render_spec(values.push(x)) == render_spec(values) + dec_digits(x as nat) + seq![10u8],
    decreases values.len(),
{
    if values.len() == 0 {
        assert(render_spec(Seq::<u32>::empty()) == Seq::<u8>::empty());
        assert(values.push(x).drop_first() =~= Seq::<u32>::empty());
        assert(values.push(x)[0] == x);
        assert(render_spec(values.push(x)) =~= render_spec(values) + dec_digits(x as nat)
            + seq![10u8]);
    } else {
        assert(values.push(x)[0] == values[0]);
        lemma_render_push(values.drop_first(), x);
        assert(values.push(x).drop_first() =~= values.drop_first().push(x));
        assert(render_spec(values.push(x)) =~= render_spec(values) + dec_digits(x as nat)
            + seq![10u8]);
    }
}

/// Parsing what `render_spec` wrote restores the original sequence.
pub proof fn lemma_report_round_trip(values: Seq<u32>)
    ensures
        parse_lines_spec(render_spec(values)) == Some(values),
    decreases values.len(),
{
    if values.len() == 0 {
        assert(values =~= Seq::<u32>::empty());
    } else {
        let v0 = values[0] as nat;
        let bytes = render_spec(values);
        let digits = dec_digits(v0);
        let rest = render_spec(values.drop_first());
        lemma_dec_digits_shape(v0);
        lemma_num_val_dec_digits(v0);
        assert forall|i: int| 0 <= i < digits.len() implies #[trigger] bytes[i] != 10 by {
            assert(bytes[i] == digits[i]);
            assert(is_digit_byte(digits[i]));
        }
        assert(bytes[digits.len() as int] == 10);
        lemma_line_len_exact(bytes, digits.len() as int);
        let k = line_len(bytes) as int;
        assert(bytes.subrange(0, k) =~= digits);
        assert(bytes.subrange(k + 1, bytes.len() as int) =~= rest);
        lemma_report_round_trip(values.drop_first());
        assert(seq![num_val(digits) as u32] + values.drop_first() =~= values);
    }
}

/// Pushes the decimal digits of `n` onto `out`, most significant first.
fn push_dec_digits(out: &mut Vec<u8>, n: u32)
    ensures
        final(out)@ == old(out)@ + dec_digits(n as nat),
    decreases n,
{
    if n >= 10 {
        push_dec_digits(out, n / 10);
    }
    out.push((n % 10) as u8 + 48);
    proof {
        if n < 10 {
            assert(out@ =~= old(out)@ + dec_digits(n as nat));
        } else {
            assert(out@ =~= old(out)@ + dec_digits(n as nat / 10) + seq![((n as nat % 10)
                + 48) as u8]);
            assert(out@ =~= old(out)@ + dec_digits(n as nat));
        }
    }
}

/// Renders the report artifact for `values`: each value as decimal digits
/// followed by a newline byte, in order.
pub fn report_lines(values: &Vec<u32>) -> (r: Vec<u8>)
    ensures
        r@ == render_spec(values@),
{
    let mut out: Vec<u8> = Vec::new();
    let mut idx: usize = 0;
    while idx < values.len()
        invariant
            idx <= values.len(),
            out@ == render_spec(values@.subrange(0, idx as int)),
        decreases values.len() - idx,
    {
        push_dec_digits(&mut out, values[idx]);
        out.push(10u8);
        proof {
            lemma_render_push(values@.subrange(0, idx as int), values@[idx as int]);
            assert(values@.subrange(0, idx as int).push(values@[idx as int]) =~= values@.subrange(
                0,
                idx as int + 1,
            ));
            assert(out@ =~= render_spec(values@.subrange(0, idx as int)) + dec_digits(
                values@[idx as int] as nat,
            ) + seq![10u8]);
        }
        idx = idx + 1;
    }
    proof {
        assert(values@.subrange(0, values@.len() as int) =~= values@);
    }
    out
}

/// Parses a report artifact back into the sequence it encodes; `None`
/// exactly when the bytes are not a well-formed artifact.
pub fn parse_report(data: &Vec<u8>) -> (r: Option<Vec<u32>>)
    ensures
        match r {
            Some(v) => parse_lines_spec(data@) == Some(v@),
            None => parse_lines_spec(data@) is None,
        },
{
    let n = data.len();
    let mut out: Vec<u32> = Vec::new();
    let mut pos: usize = 0;
    proof {
        assert(data@.subrange(0, n as int) =~= data@);
        match parse_lines_spec(data@) {
            Some(rest) => {
                assert(Seq::<u32>::empty() + rest =~= rest);
            },
            None => {},
        }
    }
    while pos < n
        invariant
            pos <= n == data@.len(),
            match parse_lines_spec(data@.subrange(pos as int, n as int)) {
                Some(rest) => parse_lines_spec(data@) == Some(out@ + rest),
                None => parse_lines_spec(data@) is None,
            },
        decreases n - pos,
    {
        let ghost suffix = data@.subrange(pos as int, n as int);
        let line_start = pos;
        let mut acc: u64 = 0;
        let mut too_big = false;
        let mut j = pos;
        while j < n && data[j] != 10
            invariant
                line_start <= j <= n == data@.len(),
                line_start < n,
                line_start == pos,
                suffix == data@.subrange(line_start as int, n as int),
                match parse_lines_spec(suffix) {
                    Some(rest) => parse_lines_spec(data@) == Some(out@ + rest),
                    None => parse_lines_spec(data@) is None,
                },
                forall|i: int| line_start <= i < j ==> is_digit_byte(#[trigger] data@[i])
                    && data@[i] != 10,
                !too_big ==> acc == num_val(data@.subrange(line_start as int, j as int)) && acc
                    <= u32::MAX,
                too_big ==> num_val(data@.subrange(line_start as int, j as int)) > u32::MAX,
            decreases n - j,
        {
            let b = data[j];
            if b < 48 || b > 57 {
                proof {
                    lemma_line_len_bounds(suffix);
                    let k = line_len(suffix) as int;
                    assert forall|i: int| 0 <= i < j - line_start + 1 implies #[trigger] suffix[i]
                        != 10 by {
                        assert(suffix[i] == data@[line_start + i]);
                    }
                    lemma_line_len_at_least(suffix, j - line_start + 1);
                    if k < suffix.len() {
                        let line = suffix.subrange(0, k);
                        assert(line[j - line_start] == suffix[j - line_start]);
                        assert(suffix[j - line_start] == data@[j as int]);
                        assert(!is_digit_byte(line[j - line_start]));
                        assert(!valid_number_line(line));
                        assert(parse_lines_spec(suffix) is None);
                    }
                }
                return None;
            }
            proof {
                let prev = data@.subrange(line_start as int, j as int);
                let cur = data@.subrange(line_start as int, j as int + 1);
                assert(cur.drop_last() =~= prev);
                assert(cur.last() == data@[j as int]);
            }
            if !too_big {
                acc = acc * 10 + (b - 48) as u64;
                if acc > 0xFFFF_FFFFu64 {
                    too_big = true;
                }
            }
            j = j + 1;
        }
        if j == n {
            proof {
                assert forall|i: int| 0 <= i < suffix.len() implies #[trigger] suffix[i]
                    != 10 by {
                    assert(suffix[i] == data@[pos + i]);
                }
                lemma_line_len_at_least(suffix, suffix.len() as int);
            }
            return None;
        }
        proof {
            assert(data@[j as int] == 10);
            assert forall|i: int| 0 <= i < j - line_start implies #[trigger] suffix[i] != 10 by {
                assert(suffix[i] == data@[pos + i]);
            }
            assert(suffix[j - line_start] == 10);
            lemma_line_len_exact(suffix, j - line_start);
            assert(suffix.subrange(0, j - line_start) =~= data@.subrange(
                line_start as int,
                j as int,
            ));
        }
        if j == line_start {
            return None;
        }
        if too_big {
            return None;
        }
        let value = acc as u32;
        out.push(value);
        proof {
            let line = data@.subrange(line_start as int, j as int);
            assert(valid_number_line(line)) by {
                assert forall|i: int| 0 <= i < line.len() implies is_digit_byte(
                    #[trigger] line[i],
                ) by {
                    assert(line[i] == data@[line_start + i]);
                }
            }
            let newsuffix = data@.subrange(j as int + 1, n as int);
            assert(suffix.subrange(j - line_start + 1, suffix.len() as int) =~= newsuffix);
            match parse_lines_spec(newsuffix) {
                Some(rest2) => {
                    assert(parse_lines_spec(suffix) == Some(seq![value] + rest2));
                    assert((out@.drop_last() + (seq![value] + rest2)) =~= out@ + rest2);
                },
                None => {
                    assert(parse_lines_spec(suffix) is None);
                },
            }
        }
        pos = j + 1;
    }
    proof {
        assert(data@.subrange(pos as int, n as int) =~= Seq::<u8>::empty());
        assert(out@ + Seq::<u32>::empty() =~= out@);
    }
    Some(out)
}

/// Computes the primes in `[start, end]` together with the report artifact
/// that encodes them: the scan result and the bytes to hand to the backing
/// store.
pub fn enumerate_and_report(start: u32, end: u32) -> (r: (Vec<u32>, Vec<u8>))
    ensures
        r.0@ == primes_in_range_spec(start as int, end as int),
        r.1@ == render_spec(r.0@),
{
    let primes = primes_in_range(start, end);
    let lines = report_lines(&primes);
    (primes, lines)
}

} // verus!
