use vstd::prelude::*;

verus! {

/// ASCII whitespace: space, tab, line feed, vertical tab, form feed, carriage return.
pub open spec fn is_ws(b: u8) -> bool {
    b == 32 || (9 <= b && b <= 13)
}

pub open spec fn is_digit(b: u8) -> bool {
    48 <= b && b <= 57
}

/// The value of a sequence of decimal digits, most significant first.
pub open spec fn digits_value(ds: Seq<u8>) -> nat
    decreases ds.len(),
{
    if ds.len() == 0 {
        0
    } else {
        digits_value(ds.drop_last()) * 10 + (ds.last() - 48) as nat
    }
}

pub open spec fn all_digits(ds: Seq<u8>) -> bool {
    forall|i: int| 0 <= i < ds.len() ==> is_digit(#[trigger] ds[i])
}

/// The digits of a token, after one optional leading `+`.
pub open spec fn unsigned_digits(tok: Seq<u8>) -> Seq<u8> {
    if tok.len() > 0 && tok[0] == 43 {
        tok.drop_first()
    } else {
        tok
    }
}

/// A token read as an unsigned 32-bit decimal number: an optional `+`, then one or
/// more digits whose value fits in `u32`.
pub open spec fn parse_u32_spec(tok: Seq<u8>) -> Option<u32> {
    let ds = unsigned_digits(tok);
    if ds.len() > 0 && all_digits(ds) && digits_value(ds) <= u32::MAX {
        Some(digits_value(ds) as u32)
    } else {
        None
    }
}

/// The shortest decimal digits of `n`.
pub open spec fn decimal(n: nat) -> Seq<u8>
    decreases n,
{
    if n < 10 {
        seq![(48 + n) as u8]
    } else {
        decimal(n / 10).push((48 + n % 10) as u8)
    }
}

pub proof fn lemma_decimal_digits(n: nat)
    ensures
        decimal(n).len() > 0,
        all_digits(decimal(n)),
        decimal(n)[0] != 43,
        digits_value(decimal(n)) == n,
    decreases n,
{
    if n >= 10 {
        lemma_decimal_digits(n / 10);
        let d = decimal(n / 10);
        assert(decimal(n).drop_last() =~= d);
        assert(decimal(n).last() == (48 + n % 10) as u8);
        assert(digits_value(decimal(n)) == (n / 10) * 10 + n % 10);
        assert((n / 10) * 10 + n % 10 == n) by (nonlinear_arith);
        assert forall|i: int| 0 <= i < decimal(n).len() implies is_digit(#[trigger] decimal(n)[i]) by {
            if i < d.len() {
                assert(decimal(n)[i] == d[i]);
            }
        }
    } else {
        assert(decimal(n).drop_last() =~= Seq::<u8>::empty());
        assert(digits_value(decimal(n)) == digits_value(Seq::<u8>::empty()) * 10 + n);
    }
}

/// The value of a token read as an unsigned 32-bit number, if it is one.
pub fn parse_u32(tok: &[u8]) -> (r: Option<u32>)
    ensures
        r == parse_u32_spec(tok@),
{
    let r = parse_u32_in(tok, 0, tok.len());
    assert(tok@.subrange(0, tok@.len() as int) =~= tok@);
    r
}

/// The value of the token `text[lo..hi]` read as an unsigned 32-bit number, if it is one.
pub fn parse_u32_in(text: &[u8], lo: usize, hi: usize) -> (r: Option<u32>)
    requires
        lo <= hi <= text@.len(),
    ensures
        r == parse_u32_spec(text@.subrange(lo as int, hi as int)),
{
    let ghost tok = text@.subrange(lo as int, hi as int);
    let n = hi;
    let mut i: usize = lo;
    if lo < hi && text[lo] == 43u8 {
        i = lo + 1;
    }
    let start = i;
    let ghost ds = unsigned_digits(tok);
    assert(ds =~= text@.subrange(start as int, n as int));
    if start == n {
        return None;
    }
    let mut acc: u64 = 0;
    let mut over = false;
    while i < n
        invariant
            start <= i <= n,
            lo <= start,
            n == hi,
            hi <= text@.len(),
            tok == text@.subrange(lo as int, hi as int),
            ds =~= text@.subrange(start as int, n as int),
            ds == unsigned_digits(tok),
            all_digits(ds.subrange(0, i - start)),
            !over ==> acc == digits_value(ds.subrange(0, i - start)) && acc <= u32::MAX,
            over ==> digits_value(ds.subrange(0, i - start)) > u32::MAX,
        decreases n - i,
    {
        let b = text[i];
        if !(48u8 <= b && b <= 57u8) {
            assert(ds[i - start] == b);
            assert(!is_digit(ds[i - start]));
            assert(!all_digits(ds));
            return None;
        }
        let ghost pre = ds.subrange(0, i - start);
        let ghost next = ds.subrange(0, i + 1 - start);
        assert(next.drop_last() =~= pre);
        assert(digits_value(next) == digits_value(pre) * 10 + (b - 48) as nat);
        if !over {
            acc = acc * 10 + (b - 48u8) as u64;
            if acc > 4294967295u64 {
                over = true;
            }
        } else {
            assert(digits_value(pre) * 10 >= digits_value(pre)) by (nonlinear_arith);
        }
        i = i + 1;
        assert forall|j: int| 0 <= j < i - start implies is_digit(#[trigger] ds.subrange(0, i - start)[j]) by {
            if j < i - 1 - start {
                assert(ds.subrange(0, i - start)[j] == pre[j]);
            }
        }
    }
    assert(ds.subrange(0, n - start) =~= ds);
    if over {
        None
    } else {
        Some(acc as u32)
    }
}

/// Appends the decimal digits of `n` to `out`.
pub fn push_decimal(out: &mut Vec<u8>, n: u32)
    ensures
        final(out)@ == old(out)@ + decimal(n as nat),
    decreases n,
{
    if n >= 10 {
        push_decimal(out, n / 10);
    }
    out.push(48u8 + (n % 10) as u8);
    proof {
        if n >= 10 {
            assert(old(out)@ + decimal(n as nat) =~= (old(out)@ + decimal((n / 10) as nat)).push((48 + n % 10) as u8));
        } else {
            assert(old(out)@ + decimal(n as nat) =~= old(out)@.push((48 + n % 10) as u8));
        }
    }
}

} // verus!
