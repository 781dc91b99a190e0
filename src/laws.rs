use vstd::prelude::*;

use crate::decimal::{all_digits, decimal, is_ws, lemma_decimal_digits, parse_u32_spec};
use crate::divisible::{divisible_spec, insert_pos, qualifying, sort_by_end};
use crate::input::{all_numbers, parsed_numbers, words};
use crate::output::{first_colon_at, join_decimal, parse_result_spec, render_spec};

verus! {

/// The numbers `1..=end` in ascending order.
pub open spec fn one_to(end: nat) -> Seq<u32> {
    Seq::new(end, |i: int| (i + 1) as u32)
}

/// For divisors of at least 1, the generated numbers are exactly the numbers in
/// `1..=end` that `a` or `b` divides, strictly ascending, so without duplicates.
pub proof fn lemma_qualifying_exact(a: u32, b: u32, end: nat)
    requires
        a >= 1,
        b >= 1,
        end <= u32::MAX,
    ensures
        qualifying(a, b, end) == one_to(end).filter(|n: u32| divisible_spec(a, b, n as nat)),
        forall|n: u32|
            qualifying(a, b, end).contains(n) <==> 1 <= n <= end && divisible_spec(a, b, n as nat),
        forall|i: int, j: int|
            0 <= i < j < qualifying(a, b, end).len() ==> qualifying(a, b, end)[i] < qualifying(
                a,
                b,
                end,
            )[j],
    decreases end,
{
    reveal(Seq::filter);
    let pred = |n: u32| divisible_spec(a, b, n as nat);
    if end == 0 {
        assert(one_to(0) =~= Seq::<u32>::empty());
        assert(qualifying(a, b, 0) =~= Seq::<u32>::empty());
    } else {
        let e1 = (end - 1) as nat;
        lemma_qualifying_exact(a, b, e1);
        let q = qualifying(a, b, e1);
        assert(one_to(end).drop_last() =~= one_to(e1));
        assert(one_to(end).last() == end as u32);
        assert forall|n: u32|
            qualifying(a, b, end).contains(n) <==> 1 <= n <= end && divisible_spec(
                a,
                b,
                n as nat,
            ) by {
            if divisible_spec(a, b, end) {
                assert(qualifying(a, b, end) == q.push(end as u32));
                if n == end {
                    assert(q.push(end as u32)[q.len() as int] == n);
                }
                if q.contains(n) {
                    let k = choose|k: int| 0 <= k < q.len() && q[k] == n;
                    assert(q.push(end as u32)[k] == n);
                }
                if q.push(end as u32).contains(n) && n != end {
                    let k = choose|k: int| 0 <= k < q.len() + 1 && #[trigger] q.push(end as u32)[k] == n;
                    assert(q[k] == n);
                }
            }
        }
        assert forall|i: int, j: int|
            0 <= i < j < qualifying(a, b, end).len() implies qualifying(a, b, end)[i] < qualifying(
                a,
                b,
                end,
            )[j] by {
            if divisible_spec(a, b, end) && j == q.len() {
                assert(q.contains(q[i]));
            }
        }
    }
}

/// An upper bound of zero gives no numbers, and such a result renders as `0:`.
pub proof fn lemma_end_zero(a: u32, b: u32)
    ensures
        qualifying(a, b, 0) == Seq::<u32>::empty(),
        render_spec((0u32, qualifying(a, b, 0))) == seq![48u8, 58u8],
{
    assert(join_decimal(Seq::<u32>::empty()) =~= Seq::<u8>::empty());
    assert(render_spec((0u32, Seq::<u32>::empty())) =~= seq![48u8, 58u8]);
}

/// Equal divisors give the numbers in `1..=end` that the one divisor divides.
pub proof fn lemma_equal_divisors(a: u32, end: nat)
    requires
        a >= 1,
        end <= u32::MAX,
    ensures
        qualifying(a, a, end) == one_to(end).filter(|n: u32| n % a == 0),
{
    lemma_qualifying_exact(a, a, end);
    assert((|n: u32| divisible_spec(a, a, n as nat)) =~= (|n: u32| n % a == 0));
}

proof fn lemma_insert_pos(s: Seq<(u32, Seq<u32>)>, end: u32)
    requires
        forall|i: int, j: int| 0 <= i < j < s.len() ==> s[i].0 <= s[j].0,
    ensures
        insert_pos(s, end) <= s.len(),
        forall|j: int| 0 <= j < insert_pos(s, end) ==> s[j].0 <= end,
        forall|j: int| insert_pos(s, end) <= j < s.len() ==> s[j].0 > end,
    decreases s.len(),
{
    if s.len() > 0 && s.last().0 > end {
        let d = s.drop_last();
        lemma_insert_pos(d, end);
        assert forall|j: int| 0 <= j < insert_pos(s, end) implies s[j].0 <= end by {
            assert(s[j] == d[j]);
        }
        assert forall|j: int| insert_pos(s, end) <= j < s.len() implies s[j].0 > end by {
            if j < d.len() {
                assert(s[j] == d[j]);
            }
        }
    } else if s.len() > 0 {
        assert forall|j: int| 0 <= j < insert_pos(s, end) implies s[j].0 <= end by {
            if j < s.len() - 1 {
                assert(s[j].0 <= s[s.len() - 1].0);
            }
        }
    }
}

/// Sorting by `end` yields results in ascending order of `end`, and the same
/// results as it was given, each as many times.
pub proof fn lemma_sort_by_end_sorted(s: Seq<(u32, Seq<u32>)>)
    ensures
        sort_by_end(s).len() == s.len(),
        sort_by_end(s).to_multiset() == s.to_multiset(),
        forall|i: int, j: int|
            0 <= i < j < sort_by_end(s).len() ==> sort_by_end(s)[i].0 <= sort_by_end(s)[j].0,
    decreases s.len(),
{
    if s.len() == 0 {
        assert(sort_by_end(s) =~= s);
    } else {
        let t = sort_by_end(s.drop_last());
        lemma_sort_by_end_sorted(s.drop_last());
        let x = s.last();
        lemma_insert_pos(t, x.0);
        let p = insert_pos(t, x.0) as int;
        let u = t.insert(p, x);
        broadcast use vstd::seq_lib::group_to_multiset_ensures;

        assert(u.remove(p) =~= t);
        assert(u[p] == x);
        assert(u.to_multiset().count(x) > 0);
        assert(s.drop_last().push(x) =~= s);
        assert(u.to_multiset() =~= t.to_multiset().insert(x));
        assert(s.to_multiset() == s.drop_last().to_multiset().insert(x));
        assert forall|i: int, j: int| 0 <= i < j < u.len() implies u[i].0 <= u[j].0 by {
            if j < p {
            } else if j == p {
            } else if i < p {
            } else if i == p {
                assert(u[j] == t[j - 1]);
            } else {
                assert(u[i] == t[i - 1] && u[j] == t[j - 1]);
            }
        }
    }
}

proof fn lemma_words_append(p: Seq<u8>, d: Seq<u8>)
    requires
        d.len() > 0,
        forall|i: int| 0 <= i < d.len() ==> !is_ws(#[trigger] d[i]),
        p.len() == 0 || is_ws(p.last()),
    ensures
        words(p + d) == words(p).push(d),
    decreases d.len(),
{
    let s = p + d;
    if d.len() == 1 {
        assert(s.drop_last() =~= p);
        assert(seq![s.last()] =~= d);
        if p.len() > 0 {
            assert(s[s.len() - 2] == p.last());
        }
    } else {
        let d1 = d.drop_last();
        lemma_words_append(p, d1);
        assert(s.drop_last() =~= p + d1);
        assert(s[s.len() - 2] == d[d.len() - 2]);
        assert(d1.push(d.last()) =~= d);
        assert(words(p).push(d1).update(words(p).len() as int, d) =~= words(p).push(d));
    }
}

/// The decimal forms of the numbers, in order.
pub open spec fn decimals(ns: Seq<u32>) -> Seq<Seq<u8>> {
    Seq::new(ns.len(), |i: int| decimal(ns[i] as nat))
}

proof fn lemma_decimal_no_ws(n: nat)
    ensures
        decimal(n).len() > 0,
        forall|i: int| 0 <= i < decimal(n).len() ==> !is_ws(#[trigger] decimal(n)[i]),
{
    lemma_decimal_digits(n);
    assert forall|i: int| 0 <= i < decimal(n).len() implies !is_ws(#[trigger] decimal(n)[i]) by {
        assert(all_digits(decimal(n)));
    }
}

proof fn lemma_words_join(ns: Seq<u32>)
    ensures
        words(join_decimal(ns)) == decimals(ns),
    decreases ns.len(),
{
    if ns.len() == 0 {
        assert(decimals(ns) =~= Seq::<Seq<u8>>::empty());
    } else if ns.len() == 1 {
        lemma_decimal_no_ws(ns[0] as nat);
        lemma_words_append(Seq::<u8>::empty(), decimal(ns[0] as nat));
        assert(Seq::<u8>::empty() + decimal(ns[0] as nat) =~= decimal(ns[0] as nat));
        assert(words(Seq::<u8>::empty()) =~= Seq::<Seq<u8>>::empty());
        assert(decimals(ns) =~= seq![decimal(ns[0] as nat)]);
    } else {
        let j = join_decimal(ns.drop_last());
        let p = j + seq![32u8];
        lemma_words_join(ns.drop_last());
        assert(p.drop_last() =~= j);
        assert(words(p) == words(j));
        lemma_decimal_no_ws(ns.last() as nat);
        lemma_words_append(p, decimal(ns.last() as nat));
        assert(decimals(ns) =~= decimals(ns.drop_last()).push(decimal(ns.last() as nat)));
    }
}

proof fn lemma_parse_decimal(n: u32)
    ensures
        parse_u32_spec(decimal(n as nat)) == Some(n),
{
    lemma_decimal_digits(n as nat);
}

proof fn lemma_parse_decimals(ns: Seq<u32>)
    ensures
        all_numbers(decimals(ns)),
        parsed_numbers(decimals(ns)) == ns,
    decreases ns.len(),
{
    if ns.len() == 0 {
        assert(decimals(ns) =~= Seq::<Seq<u8>>::empty());
    } else {
        lemma_parse_decimals(ns.drop_last());
        assert(decimals(ns).drop_last() =~= decimals(ns.drop_last()));
        lemma_parse_decimal(ns.last());
        assert(ns.drop_last().push(ns.last()) =~= ns);
    }
}

/// Reading a rendered result back gives the same `end` and the same numbers.
pub proof fn lemma_render_round_trip(r: (u32, Seq<u32>))
    ensures
        parse_result_spec(render_spec(r)) == Some(r),
{
    let s = render_spec(r);
    let d = decimal(r.0 as nat);
    let c = d.len() as int;
    lemma_decimal_digits(r.0 as nat);
    assert(s[c] == 58);
    assert forall|i: int| 0 <= i < c implies s[i] != 58 by {
        assert(s[i] == d[i]);
        assert(all_digits(d));
    }
    assert(first_colon_at(s, c));
    let k = choose|k: int| first_colon_at(s, k);
    if k < c {
        assert(s[k] != 58);
    } else if k > c {
        assert(s[c] != 58);
    }
    assert(s.subrange(0, c) =~= d);
    assert(s.subrange(c + 1, s.len() as int) =~= join_decimal(r.1));
    lemma_parse_decimal(r.0);
    lemma_words_join(r.1);
    lemma_parse_decimals(r.1);
}

} // verus!
