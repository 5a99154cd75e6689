use vstd::prelude::*;

use crate::aig::{and_table, is_used, request_ok, AndNode, AIG};
use crate::signal::Signal;

verus! {

/// Why a byte string is not a well-formed binary AIGER graph.
#[derive(Debug, Clone, Copy, PartialEq, Eq, Structural)]
pub enum AigerError {
    /// The first line is not `aig M I L O A`.
    InvalidHeader,
    /// An output line is not one literal.
    InvalidOutput,
    /// The bytes end inside a gate.
    UnexpectedEnd,
    /// A gate's deltas do not give literals below its own.
    InvalidGate,
    /// A number does not fit the machine's integers.
    Overflow,
}

/// `128` to the power `n`.
pub open spec fn pow128(n: nat) -> nat
    decreases n,
{
    if n == 0 {
        1
    } else {
        128 * pow128((n - 1) as nat)
    }
}

/// The value of a little-endian base-128 number: the low seven bits of each
/// byte, least significant byte first.
pub open spec fn leb_value(b: Seq<u8>) -> nat
    decreases b.len(),
{
    if b.len() == 0 {
        0
    } else {
        leb_value(b.drop_last()) + (b.last() % 128) as nat * pow128((b.len() - 1) as nat)
    }
}

/// The value of a string of decimal digits.
pub open spec fn decimal_value(b: Seq<u8>) -> nat
    decreases b.len(),
{
    if b.len() == 0 {
        0
    } else {
        decimal_value(b.drop_last()) * 10 + (b.last() - 48) as nat
    }
}

/// `c` is an ASCII digit.
pub open spec fn is_digit(c: u8) -> bool {
    48 <= c <= 57
}

/// The signal of an AIGER literal: the variable is half the literal, and an odd
/// literal is inverted.
pub open spec fn literal_signal(lit: nat) -> Signal {
    Signal { index: (lit / 2) as usize, inverted: lit % 2 == 1 }
}

/// The primary inputs `1..=n`, not inverted.
pub open spec fn input_signals(n: nat) -> Seq<Signal> {
    Seq::new(n, |k: int| Signal { index: (k + 1) as usize, inverted: false })
}

/// The literal of gate `n` in a graph with `i` inputs and `l` latches.
pub open spec fn gate_literal(i: nat, l: nat, n: nat) -> nat {
    2 * (i + l) + 2 + 2 * n
}

/// Each gate's deltas give input literals below its own literal and in
/// decreasing order: `0 < delta0 <= lhs` and `delta1 <= lhs - delta0`.
pub open spec fn deltas_ok(i: nat, l: nat, d: Seq<(u64, u64)>) -> bool {
    forall|n: int|
        0 <= n < d.len() ==> 1 <= (#[trigger] d[n]).0 <= gate_literal(i, l, n as nat) && d[n].1
            <= gate_literal(i, l, n as nat) - d[n].0
}

/// The node table that the gates with deltas `d` build, one `create_and` each,
/// gate `n` named by half its literal.
pub open spec fn built_table(i: nat, l: nat, d: Seq<(u64, u64)>) -> Seq<(usize, AndNode)>
    decreases d.len(),
{
    if d.len() == 0 {
        Seq::empty()
    } else {
        let n = (d.len() - 1) as nat;
        let lhs = gate_literal(i, l, n);
        let rhs0 = (lhs - d[n as int].0) as nat;
        let rhs1 = (rhs0 - d[n as int].1) as nat;
        and_table(
            built_table(i, l, d.drop_last()),
            literal_signal(rhs0),
            literal_signal(rhs1),
            (lhs / 2) as usize,
        )
    }
}

/// Some byte at or after `p` has its high bit clear: a base-128 number that
/// starts at `p` ends.
pub open spec fn leb_terminated(b: Seq<u8>, p: int) -> bool
    decreases b.len() - p,
{
    if 0 <= p < b.len() {
        b[p] < 128 || leb_terminated(b, p + 1)
    } else {
        false
    }
}

/// Where a base-128 number that starts at `p` ends: just past the first byte at
/// or after `p` whose high bit is clear.
pub open spec fn leb_end(b: Seq<u8>, p: int) -> int
    decreases b.len() - p,
{
    if 0 <= p < b.len() {
        if b[p] < 128 {
            p + 1
        } else {
            leb_end(b, p + 1)
        }
    } else {
        p
    }
}

/// The base-128 number at `p` and the position after it, where it ends, takes
/// at most ten bytes and fits in 64 bits.
pub open spec fn leb_at(b: Seq<u8>, p: int) -> Option<(u64, int)> {
    let e = leb_end(b, p);
    let v = leb_value(b.subrange(p, e));
    if leb_terminated(b, p) && e - p <= 10 && v <= u64::MAX {
        Some((v as u64, e))
    } else {
        None
    }
}

/// Where the run of digits that starts at `p` ends.
pub open spec fn digits_end(b: Seq<u8>, p: int) -> int
    decreases b.len() - p,
{
    if 0 <= p < b.len() && is_digit(b[p]) {
        digits_end(b, p + 1)
    } else {
        p
    }
}

/// The decimal number at `p` and the position after its digits, where there is
/// at least one digit and the value fits in 64 bits.
pub open spec fn decimal_at(b: Seq<u8>, p: int) -> Option<(u64, int)> {
    let e = digits_end(b, p);
    let v = decimal_value(b.subrange(p, e));
    if e > p && v <= u64::MAX {
        Some((v as u64, e))
    } else {
        None
    }
}

proof fn lemma_pow128_mono(a: nat, b: nat)
    requires
        a <= b,
    ensures
        pow128(a) <= pow128(b),
    decreases b,
{
    if a < b {
        lemma_pow128_mono(a, (b - 1) as nat);
    }
}

/// A prefix of a digit string has no larger value.
proof fn lemma_decimal_prefix(s: Seq<u8>, j: int)
    requires
        0 <= j <= s.len(),
        forall|k: int| 0 <= k < s.len() ==> is_digit(#[trigger] s[k]),
    ensures
        decimal_value(s.take(j)) <= decimal_value(s),
    decreases s.len(),
{
    if j < s.len() {
        let t = s.drop_last();
        assert(s.take(j) =~= t.take(j));
        lemma_decimal_prefix(t, j);
    } else {
        assert(s.take(j) =~= s);
    }
}

/// Decodes the little-endian base-128 number at `*pos` and moves `*pos` past
/// it. It fails with `UnexpectedEnd` where no byte ends the number, and with
/// `Overflow` where the number takes more than ten bytes or exceeds 64 bits.
pub fn read_leb(bytes: &Vec<u8>, pos: &mut usize) -> (r: Result<u64, AigerError>)
    requires
        *old(pos) <= bytes@.len(),
    ensures
        *old(pos) <= *final(pos) <= bytes@.len(),
        r.is_ok() <==> leb_at(bytes@, *old(pos) as int).is_some(),
        r.is_ok() ==> r.unwrap() == leb_at(bytes@, *old(pos) as int).unwrap().0 && *final(pos)
            == leb_at(bytes@, *old(pos) as int).unwrap().1,
        r == Err::<u64, AigerError>(AigerError::UnexpectedEnd) <==> !leb_terminated(
            bytes@,
            *old(pos) as int,
        ),
        r.is_err() && leb_terminated(bytes@, *old(pos) as int) ==> r == Err::<u64, AigerError>(
            AigerError::Overflow,
        ),
{
    let ghost b = bytes@;
    let start = *pos;
    let mut e = start;
    while e < bytes.len() && bytes[e] >= 128
        invariant
            b == bytes@,
            start <= e <= b.len(),
            leb_terminated(b, start as int) == leb_terminated(b, e as int),
            leb_end(b, start as int) == leb_end(b, e as int),
            start == *old(pos),
            *pos == start,
        decreases b.len() - e,
    {
        e = e + 1;
    }
    if e >= bytes.len() {
        return Err(AigerError::UnexpectedEnd);
    }
    e = e + 1;
    if e - start > 10 {
        return Err(AigerError::Overflow);
    }
    let mut value: u128 = 0;
    let mut mult: u128 = 1;
    let mut j = start;
    proof {
        reveal_with_fuel(pow128, 11);
        assert(pow128(10) == 1180591620717411303424);
        assert(b.subrange(start as int, start as int) =~= Seq::<u8>::empty());
    }
    while j < e
        invariant
            b == bytes@,
            start <= j <= e <= b.len(),
            e - start <= 10,
            pow128(10) == 1180591620717411303424,
            value == leb_value(b.subrange(start as int, j as int)),
            start == *old(pos),
            *pos == start,
            e == leb_end(b, start as int),
            leb_terminated(b, start as int),
            mult == pow128((j - start) as nat),
            value < mult,
        decreases e - j,
    {
        let low = (bytes[j] % 128) as u128;
        proof {
            lemma_pow128_mono((j - start) as nat, 9);
            assert(low * mult + value < 128 * mult) by (nonlinear_arith)
                requires
                    low <= 127,
                    value < mult,
            ;
            let sub = b.subrange(start as int, j + 1);
            assert(sub.drop_last() =~= b.subrange(start as int, j as int));
            assert(sub.last() == b[j as int]);
        }
        value = value + low * mult;
        mult = mult * 128;
        j = j + 1;
    }
    if value > u64::MAX as u128 {
        return Err(AigerError::Overflow);
    }
    *pos = e;
    Ok(value as u64)
}

/// Reads the decimal number at `*pos` and moves `*pos` past its digits; `None`
/// where no digit stands there or the value exceeds 64 bits.
pub fn read_decimal(bytes: &Vec<u8>, pos: &mut usize) -> (r: Option<u64>)
    requires
        *old(pos) <= bytes@.len(),
    ensures
        *old(pos) <= *final(pos) <= bytes@.len(),
        r.is_some() <==> decimal_at(bytes@, *old(pos) as int).is_some(),
        r.is_some() ==> r.unwrap() == decimal_at(bytes@, *old(pos) as int).unwrap().0
            && *final(pos) == decimal_at(bytes@, *old(pos) as int).unwrap().1,
{
    let ghost b = bytes@;
    let start = *pos;
    let mut e = start;
    while e < bytes.len() && 48 <= bytes[e] && bytes[e] <= 57
        invariant
            b == bytes@,
            start <= e <= b.len(),
            digits_end(b, start as int) == digits_end(b, e as int),
            forall|k: int| start <= k < e ==> is_digit(#[trigger] b[k]),
            start == *old(pos),
            *pos == start,
        decreases b.len() - e,
    {
        e = e + 1;
    }
    if e == start {
        return None;
    }
    let ghost s = b.subrange(start as int, e as int);
    let mut value: u64 = 0;
    let mut j = start;
    proof {
        assert(b.subrange(start as int, start as int) =~= Seq::<u8>::empty());
    }
    while j < e
        invariant
            b == bytes@,
            start <= j <= e <= b.len(),
            e == digits_end(b, start as int),
            s == b.subrange(start as int, e as int),
            forall|k: int| start <= k < e ==> is_digit(#[trigger] b[k]),
            value == decimal_value(b.subrange(start as int, j as int)),
            start == *old(pos),
            *pos == start,
        decreases e - j,
    {
        let d = (bytes[j] - 48) as u64;
        proof {
            let sub = b.subrange(start as int, j + 1);
            assert(sub.drop_last() =~= b.subrange(start as int, j as int));
            assert(sub.last() == b[j as int]);
            assert(s.take(j + 1 - start) =~= sub);
            assert forall|k: int| 0 <= k < s.len() implies is_digit(#[trigger] s[k]) by {
                assert(s[k] == b[start + k]);
            }
            lemma_decimal_prefix(s, j + 1 - start);
        }
        let tens = match value.checked_mul(10) {
            Some(v) => v,
            None => {
                return None;
            },
        };
        let next = match tens.checked_add(d) {
            Some(v) => v,
            None => {
                return None;
            },
        };
        value = next;
        j = j + 1;
    }
    *pos = e;
    Some(value)
}

/// Where the run of spaces and tabs that starts at `p` ends.
pub open spec fn blanks_end(b: Seq<u8>, p: int) -> int
    decreases b.len() - p,
{
    if 0 <= p < b.len() && (b[p] == 32 || b[p] == 9) {
        blanks_end(b, p + 1)
    } else {
        p
    }
}

/// A header or output field at `p`: blanks, a decimal number, blanks; its value
/// and the position after it.
pub open spec fn field_at(b: Seq<u8>, p: int) -> Option<(u64, int)> {
    match decimal_at(b, blanks_end(b, p)) {
        Some((v, e)) => Some((v, blanks_end(b, e))),
        None => None,
    }
}

/// The position after a line end at `p`: an optional carriage return, then a
/// line feed.
pub open spec fn line_end_at(b: Seq<u8>, p: int) -> Option<int> {
    let q = if 0 <= p < b.len() && b[p] == 13 {
        p + 1
    } else {
        p
    };
    if 0 <= q < b.len() && b[q] == 10 {
        Some(q + 1)
    } else {
        None
    }
}

/// `n` fields in a row from `p`, and the position after them.
pub open spec fn fields_at(b: Seq<u8>, p: int, n: nat) -> Option<(Seq<u64>, int)>
    decreases n,
{
    if n == 0 {
        Some((Seq::empty(), p))
    } else {
        match fields_at(b, p, (n - 1) as nat) {
            Some((vs, q)) => match field_at(b, q) {
                Some((v, q2)) => Some((vs.push(v), q2)),
                None => None,
            },
            None => None,
        }
    }
}

/// An output line at `p`: one field, then a line end.
pub open spec fn output_line_at(b: Seq<u8>, p: int) -> Option<(u64, int)> {
    match field_at(b, p) {
        Some((v, q)) => match line_end_at(b, q) {
            Some(q2) => Some((v, q2)),
            None => None,
        },
        None => None,
    }
}

/// `n` output lines in a row from `p`, and the position after them.
pub open spec fn output_lines_at(b: Seq<u8>, p: int, n: nat) -> Option<(Seq<u64>, int)>
    decreases n,
{
    if n == 0 {
        Some((Seq::empty(), p))
    } else {
        match output_lines_at(b, p, (n - 1) as nat) {
            Some((vs, q)) => match output_line_at(b, q) {
                Some((v, q2)) => Some((vs.push(v), q2)),
                None => None,
            },
            None => None,
        }
    }
}

/// `n` pairs of base-128 numbers in a row from `p`, and the position after them.
pub open spec fn delta_pairs_at(b: Seq<u8>, p: int, n: nat) -> Option<(Seq<(u64, u64)>, int)>
    decreases n,
{
    if n == 0 {
        Some((Seq::empty(), p))
    } else {
        match delta_pairs_at(b, p, (n - 1) as nat) {
            Some((ds, q)) => match leb_at(b, q) {
                Some((d0, q1)) => match leb_at(b, q1) {
                    Some((d1, q2)) => Some((ds.push((d0, d1)), q2)),
                    None => None,
                },
                None => None,
            },
            None => None,
        }
    }
}

/// The header `aig M I L O A` and its line end: the five numbers and the
/// position after the line.
pub open spec fn header_at(b: Seq<u8>) -> Option<(Seq<u64>, int)> {
    if b.len() >= 4 && b[0] == 97 && b[1] == 105 && b[2] == 103 {
        match fields_at(b, 3, 5) {
            Some((f, q)) => match line_end_at(b, q) {
                Some(q2) => Some((f, q2)),
                None => None,
            },
            None => None,
        }
    } else {
        None
    }
}

/// A well-formed binary AIGER file decoded: `I`, `L`, the output literals and
/// the gates' deltas. The counts and literals fit the machine's integers and the
/// deltas are valid.
pub open spec fn parse_aiger(b: Seq<u8>) -> Option<(u64, u64, Seq<u64>, Seq<(u64, u64)>)> {
    match header_at(b) {
        Some((f, p)) => match output_lines_at(b, p, f[3] as nat) {
            Some((lits, q)) => {
                if (forall|k: int| 0 <= k < lits.len() ==> #[trigger] lits[k] / 2 <= usize::MAX)
                    && f[1] <= usize::MAX / 8 && f[2] <= usize::MAX / 8 && f[4] <= usize::MAX
                    / 8 {
                    match delta_pairs_at(b, q, f[4] as nat) {
                        Some((d, _)) => if deltas_ok(f[1] as nat, f[2] as nat, d) {
                            Some((f[1], f[2], lits, d))
                        } else {
                            None
                        },
                        None => None,
                    }
                } else {
                    None
                }
            },
            None => None,
        },
        None => None,
    }
}

/// The output signals of a list of literals.
pub open spec fn output_signals(lits: Seq<u64>) -> Seq<Signal> {
    lits.map_values(|x: u64| literal_signal(x as nat))
}

proof fn lemma_fields_fail(b: Seq<u8>, p: int, n: nat, m: nat)
    requires
        n <= m,
        fields_at(b, p, n).is_none(),
    ensures
        fields_at(b, p, m).is_none(),
    decreases m,
{
    if n < m {
        lemma_fields_fail(b, p, n, (m - 1) as nat);
    }
}

proof fn lemma_lines_fail(b: Seq<u8>, p: int, n: nat, m: nat)
    requires
        n <= m,
        output_lines_at(b, p, n).is_none(),
    ensures
        output_lines_at(b, p, m).is_none(),
    decreases m,
{
    if n < m {
        lemma_lines_fail(b, p, n, (m - 1) as nat);
    }
}

proof fn lemma_pairs_fail(b: Seq<u8>, p: int, n: nat, m: nat)
    requires
        n <= m,
        delta_pairs_at(b, p, n).is_none(),
    ensures
        delta_pairs_at(b, p, m).is_none(),
    decreases m,
{
    if n < m {
        lemma_pairs_fail(b, p, n, (m - 1) as nat);
    }
}

/// Where `m` output lines parse, so do the first `n`, and each literal of
/// those `n` is one of the `m`.
proof fn lemma_lines_prefix(b: Seq<u8>, p: int, n: nat, m: nat)
    requires
        n <= m,
        output_lines_at(b, p, m).is_some(),
    ensures
        output_lines_at(b, p, n).is_some(),
        output_lines_at(b, p, n).unwrap().0 == output_lines_at(b, p, m).unwrap().0.take(n as int),
    decreases m,
{
    if n < m {
        lemma_lines_prefix(b, p, n, (m - 1) as nat);
        let prev = output_lines_at(b, p, (m - 1) as nat).unwrap().0;
        let q = output_lines_at(b, p, (m - 1) as nat).unwrap().1;
        let cur = output_lines_at(b, p, m).unwrap().0;
        assert(cur == prev.push(output_line_at(b, q).unwrap().0));
        lemma_lines_len(b, p, (m - 1) as nat);
        assert(cur.take(n as int) =~= prev.take(n as int));
    } else {
        assert(output_lines_at(b, p, m).unwrap().0.len() == m) by {
            lemma_lines_len(b, p, m);
        }
        assert(output_lines_at(b, p, m).unwrap().0.take(n as int) =~= output_lines_at(b, p, m).unwrap().0);
    }
}

proof fn lemma_lines_len(b: Seq<u8>, p: int, m: nat)
    requires
        output_lines_at(b, p, m).is_some(),
    ensures
        output_lines_at(b, p, m).unwrap().0.len() == m,
    decreases m,
{
    if m > 0 {
        lemma_lines_len(b, p, (m - 1) as nat);
    }
}

/// Moves `*pos` past spaces and tabs.
fn skip_blanks(bytes: &Vec<u8>, pos: &mut usize)
    requires
        *old(pos) <= bytes@.len(),
    ensures
        *final(pos) == blanks_end(bytes@, *old(pos) as int),
        *old(pos) <= *final(pos) <= bytes@.len(),
{
    while *pos < bytes.len() && (bytes[*pos] == 32 || bytes[*pos] == 9)
        invariant
            *old(pos) <= *pos <= bytes@.len(),
            blanks_end(bytes@, *old(pos) as int) == blanks_end(bytes@, *pos as int),
        decreases bytes@.len() - *pos,
    {
        *pos = *pos + 1;
    }
}

/// Reads blanks, a decimal number and blanks.
fn read_field(bytes: &Vec<u8>, pos: &mut usize) -> (r: Option<u64>)
    requires
        *old(pos) <= bytes@.len(),
    ensures
        *old(pos) <= *final(pos) <= bytes@.len(),
        r.is_some() <==> field_at(bytes@, *old(pos) as int).is_some(),
        r.is_some() ==> r.unwrap() == field_at(bytes@, *old(pos) as int).unwrap().0 && *final(pos)
            == field_at(bytes@, *old(pos) as int).unwrap().1,
{
    skip_blanks(bytes, pos);
    let r = read_decimal(bytes, pos);
    if r.is_some() {
        skip_blanks(bytes, pos);
    }
    r
}

/// Moves `*pos` past a line end (an optional carriage return, then a line
/// feed); false where none stands there.
fn read_line_end(bytes: &Vec<u8>, pos: &mut usize) -> (r: bool)
    requires
        *old(pos) <= bytes@.len(),
    ensures
        *old(pos) <= *final(pos) <= bytes@.len(),
        r <==> line_end_at(bytes@, *old(pos) as int).is_some(),
        r ==> *final(pos) == line_end_at(bytes@, *old(pos) as int).unwrap(),
{
    let start = *pos;
    let mut q = start;
    if q < bytes.len() && bytes[q] == 13 {
        q = q + 1;
    }
    if q < bytes.len() && bytes[q] == 10 {
        *pos = q + 1;
        true
    } else {
        false
    }
}

/// The signal of an AIGER literal.
pub fn to_signal(lit: u64) -> (r: Signal)
    requires
        lit / 2 <= usize::MAX,
    ensures
        r == literal_signal(lit as nat),
{
    Signal::new((lit / 2) as usize, lit % 2 == 1)
}

/// Builds the graph of the gates with input deltas `deltas`: gate `n` has the
/// literal `lhs = 2 * (i + l) + 2 + 2 * n` and the inputs `lhs - delta0` and
/// `lhs - delta0 - delta1`, and is created under the id `lhs / 2`.
pub fn build_graph(i: u64, l: u64, deltas: &Vec<(u64, u64)>) -> (r: Result<AIG, AigerError>)
    requires
        i <= usize::MAX / 8,
        l <= usize::MAX / 8,
        deltas@.len() <= usize::MAX / 8,
    ensures
        r.is_ok() <==> deltas_ok(i as nat, l as nat, deltas@),
        r.is_err() ==> r == Err::<AIG, AigerError>(AigerError::InvalidGate),
        r.is_ok() ==> {
            &&& r.unwrap().wf()
            &&& r.unwrap().node_map@ == built_table(i as nat, l as nat, deltas@)
            &&& forall|j: int|
                0 <= j < r.unwrap().node_map@.len() ==> r.unwrap().node_map@[j].0 > i
        },
{
    let ghost d = deltas@;
    let base: u64 = 2 * (i + l) + 2;
    let mut aig = AIG::new();
    let mut n: usize = 0;
    while n < deltas.len()
        invariant
            d == deltas@,
            aig.wf(),
            i <= usize::MAX / 8,
            l <= usize::MAX / 8,
            d.len() <= usize::MAX / 8,
            base == 2 * (i + l) + 2,
            n <= d.len(),
            deltas_ok(i as nat, l as nat, d.take(n as int)),
            aig.node_map@ == built_table(i as nat, l as nat, d.take(n as int)),
            forall|x: usize| is_used(aig.node_map@, x) ==> x < (base + 2 * n) / 2,
            forall|j: int| 0 <= j < aig.node_map@.len() ==> aig.node_map@[j].0 > i,
        decreases d.len() - n,
    {
        let (delta0, delta1) = deltas[n];
        let lhs: u64 = base + 2 * (n as u64);
        proof {
            assert(lhs == gate_literal(i as nat, l as nat, n as nat));
        }
        if delta0 == 0 || delta0 > lhs || delta1 > lhs - delta0 {
            proof {
                assert(!deltas_ok(i as nat, l as nat, d)) by {
                    assert(d[n as int] == (delta0, delta1));
                }
            }
            return Err(AigerError::InvalidGate);
        }
        let rhs0 = lhs - delta0;
        let rhs1 = rhs0 - delta1;
        let left = to_signal(rhs0);
        let right = to_signal(rhs1);
        let index = (lhs / 2) as usize;
        let ghost s = aig.node_map@;
        proof {
            assert(rhs0 / 2 < index);
            assert(rhs1 / 2 < index);
            assert(!is_used(s, index));
            assert(request_ok(s, left, right, index));
        }
        aig.create_and(left, right, index);
        proof {
            let t = aig.node_map@;
            let dn = d.take(n + 1);
            assert(dn.drop_last() =~= d.take(n as int));
            assert(dn[n as int] == (delta0, delta1));
            assert(t == built_table(i as nat, l as nat, dn));
            assert forall|m: int| 0 <= m < dn.len() implies 1 <= (#[trigger] dn[m]).0
                <= gate_literal(i as nat, l as nat, m as nat) && dn[m].1 <= gate_literal(
                i as nat,
                l as nat,
                m as nat,
            ) - dn[m].0 by {
                if m < n {
                    assert(dn[m] == d.take(n as int)[m]);
                }
            }
            assert forall|x: usize| is_used(t, x) implies x < (base + 2 * (n + 1)) / 2 by {
                if !is_used(s, x) {
                    let j = choose|j: int|
                        0 <= j < t.len() && (t[j].0 == x || t[j].1.left_signal.index == x
                            || t[j].1.right_signal.index == x);
                    if j < s.len() {
                        assert(t[j] == s[j]);
                        assert(is_used(s, x));
                    }
                }
            }
            assert forall|j: int| 0 <= j < t.len() implies t[j].0 > i by {
                if j < s.len() {
                    assert(t[j] == s[j]);
                }
            }
        }
        n = n + 1;
    }
    proof {
        assert(d.take(d.len() as int) =~= d);
    }
    Ok(aig)
}

/// A graph read from the binary AIGER format, with its primary inputs and outputs.
pub struct AigerReader {
    pub aig: AIG,
    pub inputs: Vec<Signal>,
    pub outputs: Vec<Signal>,
}

impl AigerReader {
    /// Decodes a binary AIGER graph: the header line `aig M I L O A`, `O` output
    /// literals one per line, then for each of the `A` gates the two deltas of
    /// its inputs' literals. Gate `n` gets the id `I + L + 1 + n`; the inputs
    /// are `1..=I`.
    pub fn from_bytes(bytes: &Vec<u8>) -> (r: Result<AigerReader, AigerError>)
        ensures
            r.is_ok() <==> parse_aiger(bytes@).is_some(),
            r.is_ok() ==> {
                let (i, l, lits, d) = parse_aiger(bytes@).unwrap();
                &&& r.unwrap().aig.wf()
                &&& r.unwrap().inputs@ == input_signals(i as nat)
                &&& r.unwrap().outputs@ == output_signals(lits)
                &&& r.unwrap().aig.node_map@ == built_table(i as nat, l as nat, d)
            },
            header_at(bytes@).is_none() ==> r == Err::<AigerReader, AigerError>(
                AigerError::InvalidHeader,
            ),
    {
        let ghost b = bytes@;
        if bytes.len() < 4 || bytes[0] != 97 || bytes[1] != 105 || bytes[2] != 103 {
            return Err(AigerError::InvalidHeader);
        }
        let mut pos: usize = 3;
        let mut fields: Vec<u64> = Vec::new();
        let mut k: usize = 0;
        while k < 5
            invariant
                b == bytes@,
                b.len() >= 4 && b[0] == 97 && b[1] == 105 && b[2] == 103,
                k <= 5,
                fields@.len() == k,
                pos <= b.len(),
                fields_at(b, 3, k as nat) == Some((fields@, pos as int)),
            decreases 5 - k,
        {
            match read_field(bytes, &mut pos) {
                Some(v) => {
                    fields.push(v);
                },
                None => {
                    proof {
                        lemma_fields_fail(b, 3, (k + 1) as nat, 5);
                    }
                    return Err(AigerError::InvalidHeader);
                },
            }
            k = k + 1;
        }
        if !read_line_end(bytes, &mut pos) {
            return Err(AigerError::InvalidHeader);
        }
        let ghost f = fields@;
        assert(f.len() == 5);
        let ghost p0 = pos as int;
        let i = fields[1];
        let l = fields[2];
        let o = fields[3];
        let a = fields[4];
        // Outputs, one literal per line.
        let mut lits: Vec<u64> = Vec::new();
        let mut outputs: Vec<Signal> = Vec::new();
        let mut n: u64 = 0;
        while n < o
            invariant
                b == bytes@,
                header_at(b) == Some((f, p0)),
                f.len() == 5,
                o == f[3],
                n <= o,
                pos <= b.len(),
                output_lines_at(b, p0, n as nat) == Some((lits@, pos as int)),
                forall|j: int| 0 <= j < lits@.len() ==> #[trigger] lits@[j] / 2 <= usize::MAX,
                outputs@ == output_signals(lits@),
            decreases o - n,
        {
            let lit = match read_field(bytes, &mut pos) {
                Some(v) => v,
                None => {
                    proof {
                        lemma_lines_fail(b, p0, (n + 1) as nat, o as nat);
                    }
                    return Err(AigerError::InvalidOutput);
                },
            };
            if !read_line_end(bytes, &mut pos) {
                proof {
                    lemma_lines_fail(b, p0, (n + 1) as nat, o as nat);
                }
                return Err(AigerError::InvalidOutput);
            }
            if lit / 2 > usize::MAX as u64 {
                proof {
                    assert(output_lines_at(b, p0, (n + 1) as nat).unwrap().0 == lits@.push(lit));
                    lemma_lines_len(b, p0, n as nat);
                    if output_lines_at(b, p0, o as nat).is_some() {
                        lemma_lines_prefix(b, p0, (n + 1) as nat, o as nat);
                        lemma_lines_len(b, p0, o as nat);
                        let full = output_lines_at(b, p0, o as nat).unwrap().0;
                        assert(full.take(n + 1)[n as int] == lit);
                        assert(full[n as int] == lit);
                        lemma_lines_len(b, p0, o as nat);
                    }
                }
                return Err(AigerError::Overflow);
            }
            lits.push(lit);
            outputs.push(to_signal(lit));
            proof {
                assert(outputs@ =~= output_signals(lits@));
            }
            n = n + 1;
        }
        if i > usize::MAX as u64 / 8 || l > usize::MAX as u64 / 8 || a > usize::MAX as u64 / 8 {
            return Err(AigerError::Overflow);
        }
        let ghost q0 = pos as int;
        let mut deltas: Vec<(u64, u64)> = Vec::new();
        let mut n: u64 = 0;
        while n < a
            invariant
                b == bytes@,
                header_at(b) == Some((f, p0)),
                f.len() == 5,
                output_lines_at(b, p0, o as nat) == Some((lits@, q0)),
                o == f[3],
                i == f[1],
                l == f[2],
                a == f[4],
                i <= usize::MAX / 8,
                l <= usize::MAX / 8,
                a <= usize::MAX / 8,
                deltas@.len() == n,
                forall|j: int| 0 <= j < lits@.len() ==> #[trigger] lits@[j] / 2 <= usize::MAX,
                outputs@ == output_signals(lits@),
                n <= a,
                pos <= b.len(),
                delta_pairs_at(b, q0, n as nat) == Some((deltas@, pos as int)),
            decreases a - n,
        {
            let ghost pp = pos as int;
            let delta0 = match read_leb(bytes, &mut pos) {
                Ok(v) => v,
                Err(e) => {
                    proof {
                        lemma_pairs_fail(b, q0, (n + 1) as nat, a as nat);
                    }
                    return Err(e);
                },
            };
            let delta1 = match read_leb(bytes, &mut pos) {
                Ok(v) => v,
                Err(e) => {
                    proof {
                        assert(leb_at(b, pp).is_some());
                        assert(delta_pairs_at(b, q0, (n + 1) as nat).is_none());
                        lemma_pairs_fail(b, q0, (n + 1) as nat, a as nat);
                    }
                    return Err(e);
                },
            };
            deltas.push((delta0, delta1));
            n = n + 1;
        }
        let aig = build_graph(i, l, &deltas)?;
        let mut inputs: Vec<Signal> = Vec::new();
        let mut k: usize = 0;
        while k < i as usize
            invariant
                k <= i,
                i <= usize::MAX / 8,
                inputs@ == input_signals(k as nat),
            decreases i - k,
        {
            inputs.push(Signal::new(k + 1, false));
            k = k + 1;
            proof {
                assert(inputs@ =~= input_signals(k as nat));
            }
        }
        Ok(AigerReader { aig, inputs, outputs })
    }

    pub fn aig(&self) -> (r: &AIG)
        ensures
            r == &self.aig,
    {
        &self.aig
    }

    pub fn inputs(&self) -> (r: &Vec<Signal>)
        ensures
            r == &self.inputs,
    {
        &self.inputs
    }

    pub fn outputs(&self) -> (r: &Vec<Signal>)
        ensures
            r == &self.outputs,
    {
        &self.outputs
    }
}

} // verus!
