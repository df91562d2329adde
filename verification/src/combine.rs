//! Every way of picking one element out of each of several lists.
use vstd::prelude::*;
use vstd::arithmetic::div_mod::{
    lemma_div_multiples_vanish_fancy, lemma_fundamental_div_mod, lemma_mod_breakdown,
    lemma_mod_mod, lemma_div_pos_is_pos, lemma_mod_pos_bound, lemma_div_denominator,
};
use vstd::arithmetic::mul::{lemma_mul_strictly_positive, lemma_mul_is_associative,
    lemma_mul_is_commutative, lemma_mul_inequality, lemma_mul_nonnegative};

verus! {

/// The contents of each list.
pub open spec fn seqs_of<T>(arrays: Seq<&Vec<T>>) -> Seq<Seq<T>> {
    arrays.map_values(|v: &Vec<T>| v@)
}

/// The product of the lengths of the lists.
pub open spec fn lens_prod<T>(a: Seq<Seq<T>>) -> int
    decreases a.len(),
{
    if a.len() == 0 {
        1
    } else {
        a[0].len() * lens_prod(a.drop_first())
    }
}

/// No list is empty.
pub open spec fn all_nonempty<T>(a: Seq<Seq<T>>) -> bool {
    forall|i: int| 0 <= i < a.len() ==> #[trigger] a[i].len() > 0
}

/// The cartesian product of the lists, in lexicographic order: the first
/// list varies slowest and the last one fastest.
pub open spec fn cartesian<T>(a: Seq<Seq<T>>) -> Seq<Seq<T>>
    decreases a.len(),
{
    if a.len() == 0 {
        seq![Seq::<T>::empty()]
    } else {
        let rest = cartesian(a.drop_first());
        let r = rest.len() as int;
        Seq::new(a[0].len() * rest.len(), |n: int| seq![a[0][n / r]] + rest[n % r])
    }
}

/// The `n`-th pick read as a number in the mixed radix given by the lengths.
pub open spec fn mixed_radix<T>(a: Seq<Seq<T>>, n: int) -> Seq<T> {
    Seq::new(a.len(), |i: int| a[i][(n / lens_prod(a.skip(i + 1))) % (a[i].len() as int)])
}

pub proof fn lemma_lens_prod_pos<T>(a: Seq<Seq<T>>)
    requires
        all_nonempty(a),
    ensures
        lens_prod(a) >= 1,
    decreases a.len(),
{
    if a.len() > 0 {
        assert(a[0].len() > 0);
        lemma_lens_prod_pos(a.drop_first());
        lemma_mul_inequality(1, a[0].len() as int, lens_prod(a.drop_first()));
    }
}

/// The product over the lists splits at any position.
pub proof fn lemma_lens_prod_split<T>(a: Seq<Seq<T>>, k: int)
    requires
        0 <= k <= a.len(),
    ensures
        lens_prod(a) == lens_prod(a.take(k)) * lens_prod(a.skip(k)),
    decreases k,
{
    if k == 0 {
        assert(a.skip(0) =~= a);
        assert(lens_prod(a.take(0)) == 1);
    } else {
        lemma_lens_prod_split(a.drop_first(), k - 1);
        assert(a.take(k).drop_first() =~= a.drop_first().take(k - 1));
        assert(a.drop_first().skip(k - 1) =~= a.skip(k));
        assert(a.take(k)[0] == a[0]);
        lemma_mul_is_associative(
            a[0].len() as int,
            lens_prod(a.drop_first().take(k - 1)),
            lens_prod(a.skip(k)),
        );
    }
}

pub proof fn lemma_lens_prod_skip_step<T>(a: Seq<Seq<T>>, k: int)
    requires
        0 <= k < a.len(),
    ensures
        lens_prod(a.skip(k)) == a[k].len() * lens_prod(a.skip(k + 1)),
{
    assert(a.skip(k).drop_first() =~= a.skip(k + 1));
    assert(a.skip(k)[0] == a[k]);
}

pub proof fn lemma_all_nonempty_skip<T>(a: Seq<Seq<T>>, k: int)
    requires
        all_nonempty(a),
        0 <= k <= a.len(),
    ensures
        all_nonempty(a.skip(k)),
        all_nonempty(a.take(k)),
{
    assert forall|i: int| 0 <= i < a.skip(k).len() implies #[trigger] a.skip(k)[i].len() > 0 by {
        assert(a.skip(k)[i] == a[i + k]);
    }
    assert forall|i: int| 0 <= i < a.take(k).len() implies #[trigger] a.take(k)[i].len() > 0 by {
        assert(a.take(k)[i] == a[i]);
    }
}

/// A suffix product never exceeds the whole product.
pub proof fn lemma_lens_prod_skip_le<T>(a: Seq<Seq<T>>, k: int)
    requires
        all_nonempty(a),
        0 <= k <= a.len(),
    ensures
        1 <= lens_prod(a.skip(k)) <= lens_prod(a),
{
    lemma_all_nonempty_skip(a, k);
    lemma_lens_prod_split(a, k);
    lemma_lens_prod_pos(a.take(k));
    lemma_lens_prod_pos(a.skip(k));
    lemma_mul_inequality(1, lens_prod(a.take(k)), lens_prod(a.skip(k)));
}

/// The digit that a position contributes is unaffected by the positions
/// that are more significant than it.
proof fn lemma_digit_ignores_high(n: int, d: int, l: int, k: int)
    requires
        0 <= n,
        0 < d,
        0 < l,
        0 < k,
    ensures
        (n / d) % l == ((n % (d * (l * k))) / d) % l,
{
    lemma_mul_strictly_positive(l, k);
    lemma_mod_breakdown(n, d, l * k);
    lemma_div_pos_is_pos(n, d);
    lemma_mod_pos_bound(n / d, l * k);
    lemma_mod_pos_bound(n, d);
    lemma_mul_nonnegative(d, (n / d) % (l * k));
    lemma_div_multiples_vanish_fancy((n / d) % (l * k), n % d, d);
    lemma_mod_mod(n / d, l, k);
}

/// The `n`-th element of the cartesian product is the mixed-radix reading of `n`.
pub proof fn lemma_cartesian_index<T>(a: Seq<Seq<T>>, n: int)
    requires
        all_nonempty(a),
        0 <= n < lens_prod(a),
    ensures
        cartesian(a).len() == lens_prod(a),
        cartesian(a)[n] == mixed_radix(a, n),
    decreases a.len(),
{
    lemma_cartesian_len(a);
    if a.len() == 0 {
        assert(cartesian(a)[n] =~= mixed_radix(a, n));
    } else {
        let t = a.drop_first();
        lemma_all_nonempty_skip(a, 1);
        assert(a.skip(1) =~= t);
        let r = lens_prod(t);
        lemma_lens_prod_pos(t);
        assert(a[0].len() > 0);
        lemma_fundamental_div_mod(n, r);
        lemma_mod_pos_bound(n, r);
        lemma_div_pos_is_pos(n, r);
        assert(n / r < a[0].len()) by {
            if n / r >= a[0].len() {
                lemma_mul_inequality(a[0].len() as int, n / r, r);
                lemma_mul_is_commutative(r, n / r);
            }
        }
        lemma_cartesian_index(t, n % r);
        let lhs = cartesian(a)[n];
        let rhs = mixed_radix(a, n);
        assert(lhs == seq![a[0][n / r]] + cartesian(t)[n % r]);
        assert forall|i: int| 0 <= i < a.len() implies lhs[i] == rhs[i] by {
            if i == 0 {
                assert(a.skip(1) =~= t);
                vstd::arithmetic::div_mod::lemma_small_mod((n / r) as nat, a[0].len());
            } else {
                let d = lens_prod(a.skip(i + 1));
                let l = a[i].len() as int;
                let k = lens_prod(a.skip(1).take(i - 1));
                lemma_lens_prod_skip_le(a, i + 1);
                assert(l > 0);
                lemma_all_nonempty_skip(t, i - 1);
                lemma_lens_prod_pos(t.take(i - 1));
                assert(t.take(i - 1) =~= a.skip(1).take(i - 1));
                lemma_lens_prod_split(t, i - 1);
                assert(t.skip(i - 1) =~= a.skip(i));
                lemma_lens_prod_skip_step(a, i);
                assert(r == k * (l * d));
                lemma_mul_is_commutative(k, l * d);
                lemma_mul_is_associative(d, l, k);
                lemma_mul_is_commutative(l, d);
                lemma_mul_is_associative(l, d, k);
                lemma_mul_is_commutative(d, k);
                assert(r == d * (l * k)) by (nonlinear_arith)
                    requires r == k * (l * d);
                lemma_digit_ignores_high(n, d, l, k);
                assert(t.skip(i) =~= a.skip(i + 1));
                assert(t[i - 1] == a[i]);
            }
        }
        assert(lhs =~= rhs);
    }
}

/// The cartesian product has as many elements as the product of the lengths.
pub proof fn lemma_cartesian_len<T>(a: Seq<Seq<T>>)
    ensures
        cartesian(a).len() == lens_prod(a),
    decreases a.len(),
{
    if a.len() > 0 {
        lemma_cartesian_len(a.drop_first());
    }
}

/// Appending a list to the lists: each old pick followed by each element of
/// the new list in turn, as many picks as before times the new list's length.
pub proof fn lemma_cartesian_push<T>(a: Seq<Seq<T>>, b: Seq<T>)
    requires
        all_nonempty(a),
        b.len() > 0,
    ensures
        cartesian(a.push(b)).len() == cartesian(a).len() * b.len(),
        forall|k: int| 0 <= k < cartesian(a.push(b)).len() ==> #[trigger] cartesian(a.push(b))[k]
            == cartesian(a)[k / (b.len() as int)].push(b[k % (b.len() as int)]),
{
    let c = a.push(b);
    let l = b.len() as int;
    assert forall|i: int| 0 <= i < c.len() implies #[trigger] c[i].len() > 0 by {
        if i < a.len() {
            assert(c[i] == a[i]);
        }
    }
    lemma_lens_prod_push(a, b);
    lemma_cartesian_len(a);
    lemma_cartesian_len(c);
    lemma_lens_prod_pos(a);
    let p = lens_prod(a);
    assert forall|k: int| 0 <= k < cartesian(c).len() implies #[trigger] cartesian(c)[k]
        == cartesian(a)[k / l].push(b[k % l]) by {
        lemma_div_pos_is_pos(k, l);
        assert(k / l < p) by {
            if k / l >= p {
                lemma_fundamental_div_mod(k, l);
                lemma_mod_pos_bound(k, l);
                lemma_mul_inequality(p, k / l, l);
                lemma_mul_is_commutative(l, k / l);
            }
        }
        lemma_cartesian_index(c, k);
        lemma_cartesian_index(a, k / l);
        let lhs = mixed_radix(c, k);
        let rhs = mixed_radix(a, k / l).push(b[k % l]);
        assert forall|i: int| 0 <= i < c.len() implies lhs[i] == rhs[i] by {
            if i < a.len() {
                let d = lens_prod(a.skip(i + 1));
                lemma_lens_prod_skip_le(a, i + 1);
                assert(c.skip(i + 1) =~= a.skip(i + 1).push(b));
                lemma_lens_prod_push(a.skip(i + 1), b);
                lemma_div_denominator(k, l, d);
                lemma_mul_is_commutative(l, d);
                assert(c[i] == a[i]);
            } else {
                assert(c.skip(i + 1) =~= Seq::<Seq<T>>::empty());
                assert(k / 1 == k);
            }
        }
        assert(lhs =~= rhs);
    }
}

/// The product of the lengths, with one more list at the end.
pub proof fn lemma_lens_prod_push<T>(a: Seq<Seq<T>>, b: Seq<T>)
    ensures
        lens_prod(a.push(b)) == lens_prod(a) * b.len(),
{
    let c = a.push(b);
    lemma_lens_prod_split(c, a.len() as int);
    assert(c.take(a.len() as int) =~= a);
    let t = c.skip(a.len() as int);
    assert(t[0] == b);
    assert(t.drop_first() =~= Seq::<Seq<T>>::empty());
    assert(lens_prod(t.drop_first()) == 1);
    assert(lens_prod(t) == b.len());
}

/// Picks, for the `n`-th combination, the element of each list that the
/// mixed-radix reading of `n` selects.
pub fn get_combinations<T: Copy>(n: usize, arrays: &[&Vec<T>], divisors: &[usize]) -> (res: Vec<T>)
    requires
        divisors@.len() >= arrays@.len(),
        forall|i: int| 0 <= i < arrays@.len() ==> #[trigger] divisors@[i] > 0,
        all_nonempty(seqs_of(arrays@)),
    ensures
        res@ == Seq::new(
            arrays@.len(),
            |i: int| arrays@[i]@[(n as int / divisors@[i] as int) % (arrays@[i]@.len() as int)],
        ),
{
    let mut res: Vec<T> = Vec::new();
    let mut i: usize = 0;
    while i < arrays.len()
        invariant
            i <= arrays@.len(),
            divisors@.len() >= arrays@.len(),
            forall|j: int| 0 <= j < arrays@.len() ==> #[trigger] divisors@[j] > 0,
            all_nonempty(seqs_of(arrays@)),
            res@.len() == i,
            forall|j: int| 0 <= j < i ==> #[trigger] res@[j] == arrays@[j]@[(n as int / divisors@[j] as int) % (arrays@[j]@.len() as int)],
        decreases arrays@.len() - i,
    {
        let arr: &Vec<T> = arrays[i];
        assert(seqs_of(arrays@)[i as int] == arr@);
        assert(seqs_of(arrays@)[i as int].len() > 0);
        let k: usize = (n / divisors[i]) % arr.len();
        res.push(arr[k]);
        i = i + 1;
    }
    assert(res@ =~= Seq::new(
        arrays@.len(),
        |i: int| arrays@[i]@[(n as int / divisors@[i] as int) % (arrays@[i]@.len() as int)],
    ));
    res
}

/// Whether the number of combinations fits in a `usize`.
pub fn count_fits<T>(arrays: &[&Vec<T>]) -> (b: bool)
    requires
        all_nonempty(seqs_of(arrays@)),
    ensures
        b == (lens_prod(seqs_of(arrays@)) <= usize::MAX),
{
    let ghost a = seqs_of(arrays@);
    let mut count: usize = 1;
    let mut i: usize = arrays.len();
    assert(a.skip(a.len() as int) =~= Seq::<Seq<T>>::empty());
    while i > 0
        invariant
            a == seqs_of(arrays@),
            a.len() == arrays@.len(),
            all_nonempty(a),
            i <= arrays@.len(),
            count == lens_prod(a.skip(i as int)),
        decreases i,
    {
        i = i - 1;
        proof {
            lemma_lens_prod_skip_step(a, i as int);
            lemma_mul_is_commutative(lens_prod(a.skip(i + 1)), a[i as int].len() as int);
        }
        let arr: &Vec<T> = arrays[i];
        assert(a[i as int] == arr@);
        let ghost old_count = count;
        assert(old_count == lens_prod(a.skip(i + 1)));
        match count.checked_mul(arr.len()) {
            Some(c) => {
                assert(c == old_count * arr@.len());
                assert(c == lens_prod(a.skip(i as int)));
                count = c;
            },
            None => {
                proof {
                    lemma_lens_prod_skip_le(a, i as int);
                }
                return false;
            },
        }
    }
    assert(a.skip(0) =~= a);
    true
}

/// Every way of picking one element from each list, in lexicographic order
/// (the last list varies fastest).
pub fn combinations<T: Copy>(arrays: &[&Vec<T>]) -> (res: Vec<Vec<T>>)
    requires
        all_nonempty(seqs_of(arrays@)),
        lens_prod(seqs_of(arrays@)) <= usize::MAX,
    ensures
        res@.map_values(|v: Vec<T>| v@) == cartesian(seqs_of(arrays@)),
{
    let ghost a = seqs_of(arrays@);
    let mut divisors: Vec<usize> = vec![0; arrays.len()];
    let mut count: usize = 1;
    let mut i: usize = arrays.len();
    proof {
        assert(a.skip(a.len() as int) =~= Seq::<Seq<T>>::empty());
    }
    while i > 0
        invariant
            a == seqs_of(arrays@),
            a.len() == arrays@.len(),
            all_nonempty(a),
            lens_prod(a) <= usize::MAX,
            i <= arrays@.len(),
            divisors@.len() == arrays@.len(),
            count == lens_prod(a.skip(i as int)),
            forall|k: int| i <= k < arrays@.len() ==> #[trigger] divisors@[k] == lens_prod(a.skip(k + 1)),
        decreases i,
    {
        i = i - 1;
        proof {
            lemma_lens_prod_skip_le(a, i + 1);
            lemma_lens_prod_skip_le(a, i as int);
            lemma_lens_prod_skip_step(a, i as int);
            if i + 1 < arrays@.len() {
                lemma_lens_prod_skip_step(a, i + 1);
                lemma_lens_prod_skip_le(a, i + 2);
            }
        }
        if i + 1 < divisors.len() {
            let arr: &Vec<T> = arrays[i + 1];
            assert(a[i + 1] == arr@);
            proof {
                lemma_mul_is_commutative(lens_prod(a.skip(i + 2)), a[i + 1].len() as int);
                assert((i + 1) + 1 == i + 2);
            }
            let v: usize = divisors[i + 1] * arr.len();
            divisors.set(i, v);
            assert(divisors@[i as int] == lens_prod(a.skip(i + 1)));
        } else {
            proof {
                assert(a.skip(i + 1) =~= Seq::<Seq<T>>::empty());
            }
            divisors.set(i, 1);
        }
        let arr_i: &Vec<T> = arrays[i];
        assert(a[i as int] == arr_i@);
        let x: usize = arr_i.len();
        proof {
            lemma_mul_is_commutative(lens_prod(a.skip(i + 1)), x as int);
        }
        if x != 0 {
            count = count * x;
        }
    }
    assert(a.skip(0) =~= a);
    let mut res: Vec<Vec<T>> = Vec::new();
    let mut n: usize = 0;
    proof {
        lemma_cartesian_len(a);
    }
    while n < count
        invariant
            a == seqs_of(arrays@),
            a.len() == arrays@.len(),
            all_nonempty(a),
            count == lens_prod(a),
            cartesian(a).len() == count,
            n <= count,
            divisors@.len() == arrays@.len(),
            forall|k: int| 0 <= k < arrays@.len() ==> #[trigger] divisors@[k] == lens_prod(a.skip(k + 1)),
            res@.len() == n,
            forall|j: int| 0 <= j < n ==> #[trigger] res@[j]@ == cartesian(a)[j],
        decreases count - n,
    {
        proof {
            assert forall|k: int| 0 <= k < arrays@.len() implies #[trigger] divisors@[k] > 0 by {
                lemma_lens_prod_skip_le(a, k + 1);
            }
        }
        let pick = get_combinations(n, arrays, divisors.as_slice());
        proof {
            lemma_cartesian_index(a, n as int);
            assert forall|i: int| 0 <= i < a.len() implies #[trigger] pick@[i] == mixed_radix(a, n as int)[i] by {
                assert(a[i] == arrays@[i]@);
            }
            assert(pick@ =~= mixed_radix(a, n as int));
        }
        res.push(pick);
        n = n + 1;
    }
    assert(res@.map_values(|v: Vec<T>| v@) =~= cartesian(a));
    res
}

} // verus!
