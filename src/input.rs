use vstd::prelude::*;

use crate::decimal::{is_ws, parse_u32_in, parse_u32_spec};
use crate::divisible::{InputError, LineNumbers};

verus! {

pub open spec fn is_newline(b: u8) -> bool {
    b == 10
}

/// The maximal runs of non-whitespace bytes of `s`, in order.
pub open spec fn words(s: Seq<u8>) -> Seq<Seq<u8>>
    decreases s.len(),
{
    if s.len() == 0 {
        seq![]
    } else {
        let w = words(s.drop_last());
        if is_ws(s.last()) {
            w
        } else if s.len() >= 2 && !is_ws(s[s.len() - 2]) {
            w.update(w.len() - 1, w.last().push(s.last()))
        } else {
            w.push(seq![s.last()])
        }
    }
}

/// The values of the words that read as unsigned 32-bit numbers; the others are skipped.
pub open spec fn parsed_numbers(ws: Seq<Seq<u8>>) -> Seq<u32>
    decreases ws.len(),
{
    if ws.len() == 0 {
        seq![]
    } else {
        let p = parsed_numbers(ws.drop_last());
        match parse_u32_spec(ws.last()) {
            Some(v) => p.push(v),
            None => p,
        }
    }
}

/// Whether every word reads as an unsigned 32-bit number.
pub open spec fn all_numbers(ws: Seq<Seq<u8>>) -> bool
    decreases ws.len(),
{
    ws.len() == 0 || (all_numbers(ws.drop_last()) && parse_u32_spec(ws.last()) is Some)
}

/// A line read as a record: exactly three of its words must be numbers.
pub open spec fn parse_line_spec(line: Seq<u8>) -> Option<LineNumbers> {
    let ns = parsed_numbers(words(line));
    if ns.len() == 3 {
        Some(LineNumbers { a: ns[0], b: ns[1], end: ns[2] })
    } else {
        None
    }
}

/// The pieces of `s` between line feeds; there is always at least one.
pub open spec fn line_pieces(s: Seq<u8>) -> Seq<Seq<u8>>
    decreases s.len(),
{
    if s.len() == 0 {
        seq![seq![]]
    } else {
        let p = line_pieces(s.drop_last());
        if is_newline(s.last()) {
            p.push(seq![])
        } else {
            p.update(p.len() - 1, p.last().push(s.last()))
        }
    }
}

/// The lines of a text: the pieces between line feeds, without the empty piece
/// that follows a final line feed or makes up an empty text.
pub open spec fn lines(s: Seq<u8>) -> Seq<Seq<u8>> {
    let p = line_pieces(s);
    if p.last().len() == 0 {
        p.drop_last()
    } else {
        p
    }
}

/// The records of the lines in order, or the 1-based number of the first line
/// that is not one.
pub open spec fn read_lines_spec(ls: Seq<Seq<u8>>) -> Result<Seq<LineNumbers>, nat>
    decreases ls.len(),
{
    if ls.len() == 0 {
        Ok(seq![])
    } else {
        match read_lines_spec(ls.drop_last()) {
            Err(k) => Err(k),
            Ok(items) => match parse_line_spec(ls.last()) {
                Some(t) => Ok(items.push(t)),
                None => Err(ls.len()),
            },
        }
    }
}

proof fn lemma_line_pieces_nonempty(s: Seq<u8>)
    ensures
        line_pieces(s).len() >= 1,
        line_pieces(s).len() <= s.len() + 1,
    decreases s.len(),
{
    if s.len() > 0 {
        lemma_line_pieces_nonempty(s.drop_last());
    }
}

proof fn lemma_line_pieces_prefix(s: Seq<u8>, i: int)
    requires
        0 <= i <= s.len(),
    ensures
        line_pieces(s).len() >= line_pieces(s.subrange(0, i)).len(),
        forall|k: int|
            0 <= k < line_pieces(s.subrange(0, i)).len() - 1 ==> line_pieces(s)[k]
                == line_pieces(s.subrange(0, i))[k],
    decreases s.len() - i,
{
    if i == s.len() {
        assert(s.subrange(0, i) =~= s);
    } else {
        assert(s.drop_last().subrange(0, i) =~= s.subrange(0, i));
        lemma_line_pieces_prefix(s.drop_last(), i);
        lemma_line_pieces_nonempty(s.drop_last());
    }
}

proof fn lemma_read_lines_stops(ls: Seq<Seq<u8>>, k: int)
    requires
        0 <= k <= ls.len(),
        read_lines_spec(ls.take(k)) is Err,
    ensures
        read_lines_spec(ls) == read_lines_spec(ls.take(k)),
    decreases ls.len() - k,
{
    if k == ls.len() {
        assert(ls.take(k) =~= ls);
    } else {
        assert(ls.drop_last().take(k) =~= ls.take(k));
        lemma_read_lines_stops(ls.drop_last(), k);
    }
}

/// The values of the words of `text[lo..hi]` that read as unsigned 32-bit numbers,
/// and whether all of its words do.
pub fn numbers_in(text: &[u8], lo: usize, hi: usize) -> (r: (Vec<u32>, bool))
    requires
        lo <= hi <= text@.len(),
    ensures
        r.0@ == parsed_numbers(words(text@.subrange(lo as int, hi as int))),
        r.1 == all_numbers(words(text@.subrange(lo as int, hi as int))),
{
    let mut nums: Vec<u32> = Vec::new();
    let mut all_ok = true;
    let mut in_word = false;
    let mut ws: usize = lo;
    let mut i: usize = lo;
    while i < hi
        invariant
            lo <= i <= hi <= text@.len(),
            in_word ==> lo <= ws < i && !is_ws(text@[i - 1]) && (ws == lo || is_ws(text@[ws - 1]))
                && words(text@.subrange(lo as int, i as int)) == words(
                text@.subrange(lo as int, ws as int),
            ).push(text@.subrange(ws as int, i as int)) && nums@ == parsed_numbers(
                words(text@.subrange(lo as int, ws as int)),
            ) && all_ok == all_numbers(words(text@.subrange(lo as int, ws as int))),
            !in_word ==> (i == lo || is_ws(text@[i - 1])) && nums@ == parsed_numbers(
                words(text@.subrange(lo as int, i as int)),
            ) && all_ok == all_numbers(words(text@.subrange(lo as int, i as int))),
        decreases hi - i,
    {
        let c = text[i];
        let ghost pre = text@.subrange(lo as int, i as int);
        let ghost next = text@.subrange(lo as int, i + 1);
        assert(next.drop_last() =~= pre);
        assert(next.last() == c);
        let is_space = c == 32u8 || (9u8 <= c && c <= 13u8);
        if is_space {
            if in_word {
                let ghost w = words(text@.subrange(lo as int, ws as int));
                let ghost tok = text@.subrange(ws as int, i as int);
                let v = parse_u32_in(text, ws, i);
                match v {
                    Some(x) => nums.push(x),
                    None => {
                        all_ok = false;
                    },
                }
                assert(w.push(tok).drop_last() =~= w);
                assert(nums@ == parsed_numbers(w.push(tok)));
                assert(all_ok == all_numbers(w.push(tok)));
                in_word = false;
            }
        } else {
            if in_word {
                let ghost w = words(text@.subrange(lo as int, ws as int));
                assert(next[next.len() - 2] == text@[i - 1]);
                assert(text@.subrange(ws as int, i as int).push(c) =~= text@.subrange(ws as int, i + 1));
                assert(words(next) =~= w.push(text@.subrange(ws as int, i + 1)));
            } else {
                if i > lo {
                    assert(next[next.len() - 2] == text@[i - 1]);
                }
                assert(text@.subrange(i as int, i + 1) =~= seq![c]);
                ws = i;
                in_word = true;
            }
        }
        i = i + 1;
    }
    if in_word {
        let ghost w = words(text@.subrange(lo as int, ws as int));
        let ghost tok = text@.subrange(ws as int, i as int);
        let v = parse_u32_in(text, ws, i);
        match v {
            Some(x) => nums.push(x),
            None => {
                all_ok = false;
            },
        }
        assert(w.push(tok).drop_last() =~= w);
    }
    (nums, all_ok)
}

/// The record that `text[lo..hi]` holds, if it holds one.
pub fn parse_line_in(text: &[u8], lo: usize, hi: usize) -> (r: Option<LineNumbers>)
    requires
        lo <= hi <= text@.len(),
    ensures
        r == parse_line_spec(text@.subrange(lo as int, hi as int)),
{
    let (nums, _) = numbers_in(text, lo, hi);
    if nums.len() == 3 {
        Some(LineNumbers { a: nums[0], b: nums[1], end: nums[2] })
    } else {
        None
    }
}

/// The record that a line holds: its words that read as unsigned 32-bit numbers
/// must be exactly three, taken in order as `a`, `b` and `end`.
pub fn parse_line(line: &[u8]) -> (r: Option<LineNumbers>)
    ensures
        r == parse_line_spec(line@),
{
    let r = parse_line_in(line, 0, line.len());
    assert(line@.subrange(0, line@.len() as int) =~= line@);
    r
}

/// The records of a text, one per line, or a `Format` error naming the first
/// line that does not hold exactly three unsigned 32-bit numbers.
pub fn read_items(text: &[u8]) -> (r: Result<Vec<LineNumbers>, InputError>)
    ensures
        match (r, read_lines_spec(lines(text@))) {
            (Ok(items), Ok(s)) => items@ == s,
            (Err(InputError::Format { line }), Err(k)) => line as nat == k,
            _ => false,
        },
{
    let n = text.len();
    let mut items: Vec<LineNumbers> = Vec::new();
    let mut start: usize = 0;
    let mut line_no: usize = 0;
    let mut i: usize = 0;
    let ghost mut done: Seq<Seq<u8>> = seq![];
    assert(text@.subrange(0, 0) =~= Seq::<u8>::empty());
    assert(done.push(text@.subrange(0, 0)) =~= seq![Seq::<u8>::empty()]);
    while i < n
        invariant
            n == text@.len(),
            start <= i <= n,
            line_no == done.len(),
            line_no <= start,
            line_pieces(text@.subrange(0, i as int)) == done.push(text@.subrange(start as int, i as int)),
            read_lines_spec(done) == Ok::<Seq<LineNumbers>, nat>(items@),
        decreases n - i,
    {
        let ghost pre = text@.subrange(0, i as int);
        let ghost next = text@.subrange(0, i + 1);
        assert(next.drop_last() =~= pre);
        assert(next.last() == text@[i as int]);
        if text[i] == 10u8 {
            let t = parse_line_in(text, start, i);
            let ghost line = text@.subrange(start as int, i as int);
            assert(done.push(line).drop_last() =~= done);
            match t {
                Some(t) => items.push(t),
                None => {
                    proof {
                        let ls = lines(text@);
                        let dl = done.push(line);
                        lemma_line_pieces_prefix(text@, i + 1);
                        assert(line_pieces(next) == dl.push(seq![]));
                        assert(ls.take(dl.len() as int) =~= dl);
                        lemma_read_lines_stops(ls, dl.len() as int);
                    }
                    return Err(InputError::Format { line: line_no + 1 });
                },
            }
            proof {
                done = done.push(line);
            }
            line_no = line_no + 1;
            start = i + 1;
            assert(text@.subrange(start as int, i + 1) =~= seq![]);
        } else {
            assert(text@.subrange(start as int, i as int).push(text@[i as int]) =~= text@.subrange(
                start as int,
                i + 1,
            ));
        }
        i = i + 1;
    }
    assert(text@.subrange(0, n as int) =~= text@);
    if start < n {
        let t = parse_line_in(text, start, n);
        let ghost line = text@.subrange(start as int, n as int);
        assert(done.push(line).drop_last() =~= done);
        match t {
            Some(t) => items.push(t),
            None => {
                return Err(InputError::Format { line: line_no + 1 });
            },
        }
    } else {
        assert(done.push(text@.subrange(start as int, n as int)).drop_last() =~= done);
    }
    Ok(items)
}

} // verus!
