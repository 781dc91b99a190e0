use vstd::prelude::*;

use crate::decimal::{decimal, parse_u32_in, parse_u32_spec, push_decimal};
use crate::divisible::{
    generate_divisible_numbers,
    results_spec,
    sort_by_end,
    InputError,
    ResultNumbers,
};
use crate::input::{all_numbers, lines, numbers_in, parsed_numbers, read_lines_spec, words};

verus! {

/// The numbers in decimal, separated by single spaces.
pub open spec fn join_decimal(ns: Seq<u32>) -> Seq<u8>
    decreases ns.len(),
{
    if ns.len() == 0 {
        seq![]
    } else if ns.len() == 1 {
        decimal(ns[0] as nat)
    } else {
        join_decimal(ns.drop_last()) + seq![32u8] + decimal(ns.last() as nat)
    }
}

/// A result as one line of text: `end`, a colon, then the numbers.
pub open spec fn render_spec(r: (u32, Seq<u32>)) -> Seq<u8> {
    decimal(r.0 as nat) + seq![58u8] + join_decimal(r.1)
}

/// The results as text, one line each, every line ended by a line feed.
pub open spec fn render_all(rs: Seq<(u32, Seq<u32>)>) -> Seq<u8>
    decreases rs.len(),
{
    if rs.len() == 0 {
        seq![]
    } else {
        render_all(rs.drop_last()) + render_spec(rs.last()) + seq![10u8]
    }
}

/// What a whole input text gives: the sorted results as text, or the first error.
pub open spec fn pipeline_spec(text: Seq<u8>) -> Result<Seq<u8>, InputError> {
    match read_lines_spec(lines(text)) {
        Err(k) => Err(InputError::Format { line: k as usize }),
        Ok(items) => match results_spec(items) {
            Err(k) => Err(InputError::InvalidDivisor { line: k as usize }),
            Ok(rs) => Ok(render_all(sort_by_end(rs))),
        },
    }
}

impl ResultNumbers {
    /// The result as text, such as `10:2 3 4 6 8 9 10`, or `0:` with no numbers.
    pub fn to_text(&self) -> (r: Vec<u8>)
        ensures
            r@ == render_spec(self@),
    {
        let mut out: Vec<u8> = Vec::new();
        push_decimal(&mut out, self.end);
        out.push(58u8);
        let ghost head = decimal(self.end as nat) + seq![58u8];
        assert(out@ =~= head);
        let mut i: usize = 0;
        while i < self.numbers.len()
            invariant
                i <= self.numbers@.len(),
                head == decimal(self.end as nat) + seq![58u8],
                out@ == head + join_decimal(self.numbers@.take(i as int)),
            decreases self.numbers@.len() - i,
        {
            let ghost ns = self.numbers@.take(i + 1);
            assert(ns.drop_last() =~= self.numbers@.take(i as int));
            if i > 0 {
                out.push(32u8);
            }
            push_decimal(&mut out, self.numbers[i]);
            proof {
                if i == 0 {
                    assert(join_decimal(self.numbers@.take(i as int)) =~= Seq::<u8>::empty());
                }
                assert(out@ =~= head + join_decimal(ns));
            }
            i = i + 1;
        }
        assert(self.numbers@.take(i as int) =~= self.numbers@);
        out
    }
}

/// `c` is the position of the first colon of `s`.
pub open spec fn first_colon_at(s: Seq<u8>, c: int) -> bool {
    0 <= c < s.len() && s[c] == 58 && forall|i: int| 0 <= i < c ==> s[i] != 58
}

/// A line of text read back as a result: the number before the first colon, then
/// the words after it, each of which must be a number.
pub open spec fn parse_result_spec(s: Seq<u8>) -> Option<(u32, Seq<u32>)> {
    if exists|c: int| first_colon_at(s, c) {
        let c = choose|c: int| first_colon_at(s, c);
        let ws = words(s.subrange(c + 1, s.len() as int));
        match parse_u32_spec(s.subrange(0, c)) {
            Some(end) => if all_numbers(ws) {
                Some((end, parsed_numbers(ws)))
            } else {
                None
            },
            None => None,
        }
    } else {
        None
    }
}

/// Reads a line of the form `end:n1 n2 ...` back into a result.
pub fn parse_result_line(line: &[u8]) -> (r: Option<ResultNumbers>)
    ensures
        match (r, parse_result_spec(line@)) {
            (Some(x), Some(m)) => x@ == m,
            (None, None) => true,
            _ => false,
        },
{
    let n = line.len();
    let mut c: usize = 0;
    while c < n && line[c] != 58u8
        invariant
            c <= n == line@.len(),
            forall|i: int| 0 <= i < c ==> line@[i] != 58,
        decreases n - c,
    {
        c = c + 1;
    }
    if c == n {
        assert forall|k: int| !first_colon_at(line@, k) by {
            if 0 <= k < line@.len() && line@[k] == 58 {
                assert(line@[k] != 58);
            }
        }
        return None;
    }
    assert(first_colon_at(line@, c as int));
    proof {
        let k = choose|k: int| first_colon_at(line@, k);
        if k < c {
            assert(line@[k] != 58);
        } else if k > c {
            assert(line@[c as int] != 58);
        }
        assert(k == c);
    }
    let end = parse_u32_in(line, 0, c);
    let (numbers, all_ok) = numbers_in(line, c + 1, n);
    match end {
        Some(end) => if all_ok {
            Some(ResultNumbers { end, numbers })
        } else {
            None
        },
        None => None,
    }
}

/// The results as text, one line each, every line ended by a line feed.
pub fn render_results(results: &Vec<ResultNumbers>) -> (r: Vec<u8>)
    ensures
        r@ == render_all(results@.map_values(|x: ResultNumbers| x@)),
{
    let ghost rs = results@.map_values(|x: ResultNumbers| x@);
    let mut out: Vec<u8> = Vec::new();
    let mut i: usize = 0;
    assert(rs.take(0) =~= Seq::<(u32, Seq<u32>)>::empty());
    while i < results.len()
        invariant
            i <= results@.len(),
            rs == results@.map_values(|x: ResultNumbers| x@),
            out@ == render_all(rs.take(i as int)),
        decreases results@.len() - i,
    {
        let line = results[i].to_text();
        let mut k: usize = 0;
        let ghost before = out@;
        while k < line.len()
            invariant
                k <= line@.len(),
                out@ == before + line@.take(k as int),
            decreases line@.len() - k,
        {
            out.push(line[k]);
            assert(line@.take(k + 1) =~= line@.take(k as int).push(line@[k as int]));
            k = k + 1;
        }
        out.push(10u8);
        assert(rs.take(i + 1).drop_last() =~= rs.take(i as int));
        assert(line@.take(k as int) =~= line@);
        assert(out@ =~= render_all(rs.take(i + 1)));
        i = i + 1;
    }
    assert(rs.take(i as int) =~= rs);
    out
}

/// Runs the whole computation on an input text: reads its records, generates the
/// results, sorts them by `end` and renders them. The output depends on the text
/// alone, so two runs on the same text give the same bytes.
pub fn run(text: &[u8]) -> (r: Result<Vec<u8>, InputError>)
    ensures
        match (r, pipeline_spec(text@)) {
            (Ok(v), Ok(s)) => v@ == s,
            (Err(e), Err(f)) => e == f,
            _ => false,
        },
{
    match generate_divisible_numbers(text) {
        Ok(results) => Ok(render_results(&results)),
        Err(e) => Err(e),
    }
}

} // verus!
