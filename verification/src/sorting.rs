//! Putting the largest first while keeping, among equals, the order in which
//! things came: what a stable sort by a decreasing key does.

use vstd::prelude::*;

verus! {

/// Each element sorts at or after the ones before it: keys never grow.
pub open spec fn keys_decrease<T>(s: Seq<(i128, T)>) -> bool {
    forall|i: int, j: int| 0 <= i < j < s.len() ==> #[trigger] s[i].0 >= #[trigger] s[j].0
}

pub open spec fn keyed<T>(v: i128) -> spec_fn((i128, T)) -> bool {
    |x: (i128, T)| x.0 == v
}

/// `out` holds the elements of `input`, largest key first, and the elements
/// of equal keys in the order in which `input` gave them.
pub open spec fn stably_sorted<T>(out: Seq<(i128, T)>, input: Seq<(i128, T)>) -> bool {
    &&& keys_decrease(out)
    &&& forall|v: i128| #[trigger] out.filter(keyed::<T>(v)) == input.filter(keyed::<T>(v))
}

proof fn lemma_filter_insert<T>(s: Seq<(i128, T)>, p: int, x: (i128, T), v: i128)
    requires
        0 <= p <= s.len(),
        forall|i: int| p <= i < s.len() ==> #[trigger] s[i].0 < x.0,
    ensures
        s.insert(p, x).filter(keyed::<T>(v)) == if x.0 == v {
            s.filter(keyed::<T>(v)).push(x)
        } else {
            s.filter(keyed::<T>(v))
        },
{
    let f = keyed::<T>(v);
    let a = s.take(p);
    let b = s.skip(p);
    assert(s =~= a + b);
    assert(s.insert(p, x) =~= a.push(x) + b);
    Seq::filter_distributes_over_add(a, b, f);
    Seq::filter_distributes_over_add(a.push(x), b, f);
    a.lemma_filter_push(x, f);
    if x.0 == v {
        assert(b.filter(f) =~= Seq::<(i128, T)>::empty()) by {
            assert forall|i: int| 0 <= i < b.len() implies !f(#[trigger] b[i]) by {
                assert(s[p + i] == b[i]);
            }
            b.lemma_all_neg_filter_empty(f);
        }
        assert(s.filter(f) =~= a.filter(f));
        assert(s.insert(p, x).filter(f) =~= a.filter(f).push(x));
    }
}

/// Every element of a stable sort comes from its input.
pub proof fn lemma_sorted_from_input<T>(out: Seq<(i128, T)>, input: Seq<(i128, T)>, i: int)
    requires
        stably_sorted(out, input),
        0 <= i < out.len(),
    ensures
        input.contains(out[i]),
{
    let f = keyed::<T>(out[i].0);
    out.lemma_filter_contains(f, i);
    assert(out.filter(f) == input.filter(f));
    input.lemma_filter_contains_rev(f, out[i]);
}

/// Sorts by decreasing key, equal keys keeping their order.
pub fn sort_by_key_desc<T>(items: Vec<(i128, T)>) -> (r: Vec<(i128, T)>)
    ensures
        stably_sorted(r@, items@),
        r@.len() == items@.len(),
{
    let ghost input = items@;
    let count: usize = items.len();
    let mut rest = items;
    let mut out: Vec<(i128, T)> = Vec::new();
    let mut k: usize = 0;
    proof {
        assert forall|v: i128| #[trigger] out@.filter(keyed::<T>(v)) == input.take(0).filter(keyed::<T>(v)) by {
            reveal(Seq::filter);
            assert(input.take(0) =~= Seq::<(i128, T)>::empty());
        }
        assert(rest@ =~= input.skip(0));
    }
    while rest.len() > 0
        invariant
            k <= input.len(),
            rest@ == input.skip(k as int),
            out@.len() == k,
            k + rest@.len() == input.len(),
            input.len() == count,
            keys_decrease(out@),
            forall|v: i128| #[trigger] out@.filter(keyed::<T>(v)) == input.take(k as int).filter(keyed::<T>(v)),
        decreases rest@.len(),
    {
        let x = rest.remove(0);
        proof {
            assert(x == input[k as int]);
            assert(rest@ =~= input.skip(k + 1));
            assert(input.take(k + 1) =~= input.take(k as int).push(x));
        }
        let mut p: usize = 0;
        while p < out.len() && out[p].0 >= x.0
            invariant
                p <= out@.len(),
                forall|i: int| 0 <= i < p ==> #[trigger] out@[i].0 >= x.0,
            decreases out@.len() - p,
        {
            p = p + 1;
        }
        let ghost before = out@;
        let ghost xv = x;
        proof {
            assert forall|i: int| p <= i < before.len() implies #[trigger] before[i].0 < xv.0 by {
                if i > p {
                    assert(before[p as int].0 >= before[i].0);
                }
            }
        }
        out.insert(p, x);
        proof {
            assert(out@ == before.insert(p as int, xv));
            assert forall|i: int, j: int| 0 <= i < j < out@.len() implies #[trigger] out@[i].0
                >= #[trigger] out@[j].0 by {
                if j < p {
                    assert(out@[i] == before[i]);
                    assert(out@[j] == before[j]);
                } else if j == p {
                    assert(out@[i] == before[i]);
                } else if i == p {
                    assert(out@[j] == before[j - 1]);
                } else if i < p {
                    assert(out@[i] == before[i]);
                    assert(out@[j] == before[j - 1]);
                    assert(before[p as int].0 < xv.0);
                } else {
                    assert(out@[i] == before[i - 1]);
                    assert(out@[j] == before[j - 1]);
                }
            }
            assert forall|v: i128| #[trigger] out@.filter(keyed::<T>(v)) == input.take(k + 1).filter(keyed::<T>(v)) by {
                lemma_filter_insert(before, p as int, xv, v);
                input.take(k as int).lemma_filter_push(xv, keyed::<T>(v));
            }
        }
        k = k + 1;
    }
    proof {
        assert(input.take(k as int) =~= input);
    }
    out
}

} // verus!
