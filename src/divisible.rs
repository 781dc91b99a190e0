use vstd::prelude::*;

use crate::input::{lines, read_items, read_lines_spec};

verus! {

/// One input record: two divisors and the inclusive upper bound of the scan.
#[derive(Clone, Copy, Debug, PartialEq, Eq, Structural)]
pub struct LineNumbers {
    pub a: u32,
    pub b: u32,
    pub end: u32,
}

/// Why an input could not be processed; each carries the 1-based line number.
#[derive(Clone, Copy, Debug, PartialEq, Eq, Structural)]
pub enum InputError {
    /// The line does not hold exactly three unsigned 32-bit numbers.
    Format { line: usize },
    /// One of the line's divisors is zero.
    InvalidDivisor { line: usize },
}

/// The numbers from 1 to a record's `end` that one of its divisors divides, in order.
#[derive(Debug, PartialEq)]
pub struct ResultNumbers {
    pub end: u32,
    pub numbers: Vec<u32>,
}

impl View for ResultNumbers {
    type V = (u32, Seq<u32>);

    open spec fn view(&self) -> (u32, Seq<u32>) {
        (self.end, self.numbers@)
    }
}

pub open spec fn divisible_spec(a: u32, b: u32, n: nat) -> bool {
    n % (a as nat) == 0 || n % (b as nat) == 0
}

/// The numbers in `1..=end` that `a` or `b` divides, ascending.
pub open spec fn qualifying(a: u32, b: u32, end: nat) -> Seq<u32>
    decreases end,
{
    if end == 0 {
        seq![]
    } else {
        let p = qualifying(a, b, (end - 1) as nat);
        if divisible_spec(a, b, end) {
            p.push(end as u32)
        } else {
            p
        }
    }
}

/// The result that a record gives.
pub open spec fn result_of(t: LineNumbers) -> (u32, Seq<u32>) {
    (t.end, qualifying(t.a, t.b, t.end as nat))
}

/// Where a result with the given `end` goes among results sorted by `end`: after
/// every one whose `end` is not greater.
pub open spec fn insert_pos(s: Seq<(u32, Seq<u32>)>, end: u32) -> nat
    decreases s.len(),
{
    if s.len() == 0 || s.last().0 <= end {
        s.len()
    } else {
        insert_pos(s.drop_last(), end)
    }
}

/// The results sorted by ascending `end`; results with equal `end` keep their order.
pub open spec fn sort_by_end(s: Seq<(u32, Seq<u32>)>) -> Seq<(u32, Seq<u32>)>
    decreases s.len(),
{
    if s.len() == 0 {
        seq![]
    } else {
        let t = sort_by_end(s.drop_last());
        t.insert(insert_pos(t, s.last().0) as int, s.last())
    }
}

/// The results of the records in order, or the 1-based index of the first record
/// with a zero divisor.
pub open spec fn results_spec(items: Seq<LineNumbers>) -> Result<Seq<(u32, Seq<u32>)>, nat>
    decreases items.len(),
{
    if items.len() == 0 {
        Ok(seq![])
    } else {
        match results_spec(items.drop_last()) {
            Err(k) => Err(k),
            Ok(rs) => {
                let t = items.last();
                if t.a == 0 || t.b == 0 {
                    Err(items.len())
                } else {
                    Ok(rs.push(result_of(t)))
                }
            },
        }
    }
}

/// Whether `a` or `b` divides `n`.
pub fn is_number_divisible_by(item: &LineNumbers, n: &u32) -> (r: bool)
    requires
        item.a != 0,
        item.b != 0,
    ensures
        r == divisible_spec(item.a, item.b, *n as nat),
{
    *n % item.a == 0 || *n % item.b == 0
}

/// Scans `1..=item.end` and keeps the numbers that a divisor of the record divides.
pub fn divisible_numbers(item: &LineNumbers) -> (r: ResultNumbers)
    requires
        item.a != 0,
        item.b != 0,
    ensures
        r@ == result_of(*item),
{
    let mut numbers: Vec<u32> = Vec::new();
    let mut n: u32 = 0;
    while n < item.end
        invariant
            n <= item.end,
            item.a != 0,
            item.b != 0,
            numbers@ == qualifying(item.a, item.b, n as nat),
        decreases item.end - n,
    {
        n = n + 1;
        if is_number_divisible_by(item, &n) {
            numbers.push(n);
        }
    }
    ResultNumbers { end: item.end, numbers }
}

/// Inserts `r` into `out`, which is sorted by `end`, after every result whose
/// `end` is not greater than its own.
pub fn insert_by_end(out: &mut Vec<ResultNumbers>, r: ResultNumbers)
    ensures
        final(out)@.map_values(|x: ResultNumbers| x@) == old(out)@.map_values(
            |x: ResultNumbers| x@,
        ).insert(insert_pos(old(out)@.map_values(|x: ResultNumbers| x@), r.end) as int, r@),
{
    let ghost s = old(out)@.map_values(|x: ResultNumbers| x@);
    let mut p: usize = out.len();
    assert(s.take(p as int) =~= s);
    while p > 0 && out[p - 1].end > r.end
        invariant
            p <= out@.len(),
            out@.map_values(|x: ResultNumbers| x@) == s,
            insert_pos(s.take(p as int), r.end) == insert_pos(s, r.end),
        decreases p,
    {
        assert(s.take(p as int).drop_last() =~= s.take(p - 1));
        p = p - 1;
    }
    proof {
        if p > 0 {
            assert(s.take(p as int).last() == s[p - 1]);
        }
        assert(insert_pos(s.take(p as int), r.end) == p);
    }
    let ghost rv = r@;
    out.insert(p, r);
    assert(out@.map_values(|x: ResultNumbers| x@) =~= s.insert(p as int, rv));
}

/// The results of the records of a text, sorted by ascending `end` with ties in
/// input order; or the first error: a line that is not a record, or a record with
/// a zero divisor.
pub fn generate_divisible_numbers(text: &[u8]) -> (r: Result<Vec<ResultNumbers>, InputError>)
    ensures
        match (r, read_lines_spec(lines(text@))) {
            (Err(InputError::Format { line }), Err(k)) => line as nat == k,
            (_, Err(_)) => false,
            (r, Ok(items)) => match (r, results_spec(items)) {
                (Ok(v), Ok(rs)) => v@.map_values(|x: ResultNumbers| x@) == sort_by_end(rs),
                (Err(InputError::InvalidDivisor { line }), Err(k)) => line as nat == k,
                _ => false,
            },
        },
{
    let items = match read_items(text) {
        Ok(items) => items,
        Err(e) => {
            return Err(e);
        },
    };
    let ghost s = items@;
    assert(read_lines_spec(lines(text@)) == Ok::<Seq<LineNumbers>, nat>(s));
    let mut out: Vec<ResultNumbers> = Vec::new();
    let mut i: usize = 0;
    while i < items.len()
        invariant
            i <= items@.len(),
            s == items@,
            read_lines_spec(lines(text@)) == Ok::<Seq<LineNumbers>, nat>(s),
            results_spec(s.take(i as int)) matches Ok(rs) && out@.map_values(
                |x: ResultNumbers| x@,
            ) == sort_by_end(rs),
        decreases items@.len() - i,
    {
        let t = items[i];
        assert(s.take(i + 1).drop_last() =~= s.take(i as int));
        assert(s.take(i + 1).last() == t);
        if t.a == 0 || t.b == 0 {
            proof {
                assert(results_spec(s.take(i + 1)) == Err::<Seq<(u32, Seq<u32>)>, nat>((i + 1) as nat));
                lemma_results_stop(s, i + 1);
            }
            return Err(InputError::InvalidDivisor { line: i + 1 });
        }
        let ghost rs = results_spec(s.take(i as int))->Ok_0;
        let r = divisible_numbers(&t);
        insert_by_end(&mut out, r);
        assert(rs.push(result_of(t)).drop_last() =~= rs);
        i = i + 1;
    }
    assert(s.take(s.len() as int) =~= s);
    Ok(out)
}

proof fn lemma_results_stop(s: Seq<LineNumbers>, k: int)
    requires
        0 <= k <= s.len(),
        results_spec(s.take(k)) is Err,
    ensures
        results_spec(s) == results_spec(s.take(k)),
    decreases s.len() - k,
{
    if k == s.len() {
        assert(s.take(k) =~= s);
    } else {
        assert(s.drop_last().take(k) =~= s.take(k));
        lemma_results_stop(s.drop_last(), k);
    }
}

} // verus!
