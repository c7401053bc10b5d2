//! Stable ordering: what it means for a listing to be arranged, and a merge
//! sort that produces the arrangement.

use vstd::prelude::*;

verus! {

/// Sort order applied to listings.
#[derive(Debug, Clone, Copy, PartialEq, Eq, Default, Structural)]
pub enum SortOrder {
    /// Largest entry first (default).
    #[default]
    Size,
    /// Alphabetical by path or extension, ascending.
    Name,
}

/// `s` with `x` put in right behind the leading elements that may stand before `x`.
pub open spec fn placed<T>(s: Seq<T>, x: T, le: spec_fn(T, T) -> bool) -> Seq<T>
    decreases s.len(),
{
    if s.len() == 0 {
        seq![x]
    } else if le(s[0], x) {
        seq![s[0]] + placed(s.drop_first(), x, le)
    } else {
        seq![x] + s
    }
}

/// The elements of `s` in the order `le`; elements that compare equal keep the
/// order that they have in `s`.
pub open spec fn arranged<T>(s: Seq<T>, le: spec_fn(T, T) -> bool) -> Seq<T>
    decreases s.len(),
{
    if s.len() == 0 {
        s
    } else {
        placed(arranged(s.drop_last(), le), s.last(), le)
    }
}

/// Every element may stand before each one behind it.
pub open spec fn in_order<T>(s: Seq<T>, le: spec_fn(T, T) -> bool) -> bool {
    forall|i: int, j: int| 0 <= i <= j < s.len() ==> #[trigger] le(s[i], s[j])
}

/// `le` compares any two elements, and chains.
pub open spec fn total_preorder<T>(le: spec_fn(T, T) -> bool) -> bool {
    &&& forall|x: T, y: T| #[trigger] le(x, y) || le(y, x)
    &&& forall|x: T, y: T, z: T| #[trigger] le(x, y) && #[trigger] le(y, z) ==> le(x, z)
}

/// What can be listed by size or by name.
pub trait Ranked: Sized {
    /// The order in which a listing of these stands: the first of two that it
    /// relates may stand before the second.
    spec fn ranking(sort: SortOrder) -> spec_fn(Self, Self) -> bool;

    proof fn ranking_is_total_preorder(sort: SortOrder)
        ensures
            total_preorder(Self::ranking(sort)),
    ;

    fn at_most(sort: SortOrder, x: &Self, y: &Self) -> (r: bool)
        ensures
            r == Self::ranking(sort)(*x, *y),
    ;
}

/// Two arranged runs merged into one; of equal heads the left one goes first.
spec fn merged<T>(a: Seq<T>, b: Seq<T>, le: spec_fn(T, T) -> bool) -> Seq<T>
    decreases a.len() + b.len(),
{
    if a.len() == 0 {
        b
    } else if b.len() == 0 {
        a
    } else if le(a[0], b[0]) {
        seq![a[0]] + merged(a.drop_first(), b, le)
    } else {
        seq![b[0]] + merged(a, b.drop_first(), le)
    }
}

proof fn lemma_merged_placed<T>(a: Seq<T>, b: Seq<T>, x: T, le: spec_fn(T, T) -> bool)
    requires
        total_preorder(le),
    ensures
        merged(a, placed(b, x, le), le) == placed(merged(a, b, le), x, le),
    decreases a.len() + b.len(),
{
    let bx = placed(b, x, le);
    if a.len() == 0 {
    } else if b.len() == 0 {
        assert(bx =~= seq![x]);
        if le(a[0], x) {
            lemma_merged_placed(a.drop_first(), b, x, le);
            assert(merged(a.drop_first(), b, le) =~= a.drop_first());
        } else {
            assert(bx.drop_first() =~= Seq::<T>::empty());
            assert(merged(a, bx.drop_first(), le) == a);
        }
    } else if !le(b[0], x) {
        assert(bx =~= seq![x] + b);
        assert(bx.drop_first() =~= b);
        if le(a[0], x) {
            lemma_merged_placed(a.drop_first(), b, x, le);
            assert(le(x, b[0]));
            assert(le(a[0], b[0]));
            assert(merged(a, b, le).drop_first() =~= merged(a.drop_first(), b, le));
        } else {
        }
    } else {
        assert(bx =~= seq![b[0]] + placed(b.drop_first(), x, le));
        assert(bx.drop_first() =~= placed(b.drop_first(), x, le));
        if le(a[0], b[0]) {
            lemma_merged_placed(a.drop_first(), b, x, le);
            assert(le(a[0], x));
            assert(merged(a, b, le).drop_first() =~= merged(a.drop_first(), b, le));
        } else {
            lemma_merged_placed(a, b.drop_first(), x, le);
            assert(merged(a, b, le).drop_first() =~= merged(a, b.drop_first(), le));
        }
    }
}

proof fn lemma_arranged_split<T>(a: Seq<T>, b: Seq<T>, le: spec_fn(T, T) -> bool)
    requires
        total_preorder(le),
    ensures
        arranged(a + b, le) == merged(arranged(a, le), arranged(b, le), le),
    decreases b.len(),
{
    if b.len() == 0 {
        assert(a + b =~= a);
        assert(merged(arranged(a, le), arranged(b, le), le) =~= arranged(a, le));
    } else {
        lemma_arranged_split(a, b.drop_last(), le);
        assert((a + b).drop_last() =~= a + b.drop_last());
        lemma_merged_placed(arranged(a, le), arranged(b.drop_last(), le), b.last(), le);
    }
}

fn merge<T: Ranked + Copy>(a: &Vec<T>, b: &Vec<T>, sort: SortOrder) -> (r: Vec<T>)
    ensures
        r@ == merged(a@, b@, T::ranking(sort)),
{
    let ghost le = T::ranking(sort);
    let mut r: Vec<T> = Vec::new();
    let mut i: usize = 0;
    let mut j: usize = 0;
    assert(a@.skip(0) =~= a@);
    assert(b@.skip(0) =~= b@);
    assert(r@ + merged(a@.skip(0), b@.skip(0), le) =~= merged(a@, b@, le));
    while i < a.len() && j < b.len()
        invariant
            i <= a.len(),
            j <= b.len(),
            le == T::ranking(sort),
            r@ + merged(a@.skip(i as int), b@.skip(j as int), le) == merged(a@, b@, le),
        decreases a.len() - i + b.len() - j,
    {
        let ghost before = r@;
        let ghost rest_a = a@.skip(i as int);
        let ghost rest_b = b@.skip(j as int);
        if T::at_most(sort, &a[i], &b[j]) {
            r.push(a[i]);
            i = i + 1;
            proof {
                assert(rest_a.drop_first() =~= a@.skip(i as int));
                assert(r@ + merged(a@.skip(i as int), rest_b, le) =~= before + merged(
                    rest_a,
                    rest_b,
                    le,
                ));
            }
        } else {
            r.push(b[j]);
            j = j + 1;
            proof {
                assert(rest_b.drop_first() =~= b@.skip(j as int));
                assert(r@ + merged(rest_a, b@.skip(j as int), le) =~= before + merged(
                    rest_a,
                    rest_b,
                    le,
                ));
            }
        }
    }
    let ghost before = r@;
    let ghost i0 = i as int;
    let ghost j0 = j as int;
    while i < a.len()
        invariant
            0 <= i0 <= i <= a.len(),
            r@ == before + a@.subrange(i0, i as int),
        decreases a.len() - i,
    {
        r.push(a[i]);
        i = i + 1;
        assert(a@.subrange(i0, i as int) =~= a@.subrange(i0, i - 1).push(a@[i - 1]));
    }
    let ghost middle = r@;
    while j < b.len()
        invariant
            0 <= j0 <= j <= b.len(),
            r@ == middle + b@.subrange(j0, j as int),
        decreases b.len() - j,
    {
        r.push(b[j]);
        j = j + 1;
        assert(b@.subrange(j0, j as int) =~= b@.subrange(j0, j - 1).push(b@[j - 1]));
    }
    proof {
        assert(a@.subrange(i0, a@.len() as int) =~= a@.skip(i0));
        assert(b@.subrange(j0, b@.len() as int) =~= b@.skip(j0));
        assert(r@ =~= before + merged(a@.skip(i0), b@.skip(j0), le));
    }
    r
}

fn arrange_range<T: Ranked + Copy>(
    items: &Vec<T>,
    from: usize,
    to: usize,
    sort: SortOrder,
) -> (r: Vec<T>)
    requires
        from <= to <= items.len(),
    ensures
        r@ == arranged(items@.subrange(from as int, to as int), T::ranking(sort)),
    decreases to - from,
{
    let ghost le = T::ranking(sort);
    let mut r: Vec<T> = Vec::new();
    if from == to {
        assert(items@.subrange(from as int, to as int) =~= Seq::<T>::empty());
        return r;
    }
    if to - from == 1 {
        r.push(items[from]);
        proof {
            let one = items@.subrange(from as int, to as int);
            assert(one.drop_last() =~= Seq::<T>::empty());
            assert(one.last() == items@[from as int]);
            reveal_with_fuel(arranged, 2);
            assert(arranged(one, le) =~= seq![items@[from as int]]);
        }
        return r;
    }
    let mid: usize = from + (to - from) / 2;
    let a = arrange_range(items, from, mid, sort);
    let b = arrange_range(items, mid, to, sort);
    proof {
        let left = items@.subrange(from as int, mid as int);
        let right = items@.subrange(mid as int, to as int);
        assert(left + right =~= items@.subrange(from as int, to as int));
        T::ranking_is_total_preorder(sort);
        lemma_arranged_split(left, right, le);
    }
    merge(&a, &b, sort)
}

/// The items in the order `sort`; equal ones keep their places.
pub fn arrange<T: Ranked + Copy>(items: &Vec<T>, sort: SortOrder) -> (r: Vec<T>)
    ensures
        r@ == arranged(items@, T::ranking(sort)),
{
    assert(items@.subrange(0, items@.len() as int) =~= items@);
    arrange_range(items, 0, items.len(), sort)
}

/// `lt` decides between any two distinct elements, one way only, and chains.
pub open spec fn strict_order<T>(lt: spec_fn(T, T) -> bool) -> bool {
    &&& forall|x: T, y: T| #[trigger] lt(x, y) ==> x != y && !lt(y, x)
    &&& forall|x: T, y: T| x != y ==> #[trigger] lt(x, y) || lt(y, x)
    &&& forall|x: T, y: T, z: T| #[trigger] lt(x, y) && #[trigger] lt(y, z) ==> lt(x, z)
}

/// Dictionary order: the first difference decides, and a prefix comes first.
pub open spec fn lex_le<T>(a: Seq<T>, b: Seq<T>, lt: spec_fn(T, T) -> bool) -> bool
    decreases a.len(),
{
    ||| a.len() == 0
    ||| b.len() > 0 && (lt(a[0], b[0]) || a[0] == b[0] && lex_le(
        a.drop_first(),
        b.drop_first(),
        lt,
    ))
}

/// Dictionary order between different sequences.
pub open spec fn lex_lt<T>(a: Seq<T>, b: Seq<T>, lt: spec_fn(T, T) -> bool) -> bool {
    a != b && lex_le(a, b, lt)
}

/// Where the first of two compared things stands.
#[derive(Debug, Clone, Copy, PartialEq, Eq, Structural)]
pub enum Standing {
    Before,
    Same,
    Behind,
}

/// Where `a` stands to `b` in dictionary order.
pub open spec fn lex_standing<T>(a: Seq<T>, b: Seq<T>, lt: spec_fn(T, T) -> bool) -> Standing
    decreases a.len(),
{
    if a.len() == 0 && b.len() == 0 {
        Standing::Same
    } else if a.len() == 0 {
        Standing::Before
    } else if b.len() == 0 {
        Standing::Behind
    } else if lt(a[0], b[0]) {
        Standing::Before
    } else if lt(b[0], a[0]) {
        Standing::Behind
    } else {
        lex_standing(a.drop_first(), b.drop_first(), lt)
    }
}

pub proof fn lemma_lex_standing<T>(a: Seq<T>, b: Seq<T>, lt: spec_fn(T, T) -> bool)
    requires
        strict_order(lt),
    ensures
        lex_standing(a, b, lt) is Same <==> a == b,
        lex_standing(a, b, lt) is Before <==> lex_lt(a, b, lt),
        lex_standing(a, b, lt) is Behind <==> lex_lt(b, a, lt),
        lex_le(a, b, lt) <==> !lex_lt(b, a, lt),
    decreases a.len(),
{
    if a.len() == 0 && b.len() == 0 {
        assert(a =~= b);
    } else if a.len() > 0 && b.len() > 0 {
        if a[0] == b[0] {
            assert(!lt(a[0], b[0]));
            lemma_lex_standing(a.drop_first(), b.drop_first(), lt);
            assert(a =~= seq![a[0]] + a.drop_first());
            assert(b =~= seq![b[0]] + b.drop_first());
        } else {
            assert(lt(a[0], b[0]) || lt(b[0], a[0]));
        }
    }
}

/// Dictionary order decides between any two different sequences.
pub proof fn lemma_lex_lt_is_strict<T>(lt: spec_fn(T, T) -> bool)
    requires
        strict_order(lt),
    ensures
        strict_order(|a: Seq<T>, b: Seq<T>| lex_lt(a, b, lt)),
{
    let f = |a: Seq<T>, b: Seq<T>| lex_lt(a, b, lt);
    assert forall|x: Seq<T>, y: Seq<T>| #[trigger] f(x, y) implies x != y && !f(y, x) by {
        lemma_lex_standing(x, y, lt);
    }
    assert forall|x: Seq<T>, y: Seq<T>| x != y implies #[trigger] f(x, y) || f(y, x) by {
        lemma_lex_standing(x, y, lt);
    }
    assert forall|x: Seq<T>, y: Seq<T>, z: Seq<T>| #[trigger] f(x, y) && #[trigger] f(y, z) implies f(
        x,
        z,
    ) by {
        lemma_lex_transitive(x, y, z, lt);
        if x == z {
            lemma_lex_antisymmetric(x, y, lt);
        }
    }
}

pub proof fn lemma_lex_total<T>(a: Seq<T>, b: Seq<T>, lt: spec_fn(T, T) -> bool)
    requires
        strict_order(lt),
    ensures
        lex_le(a, b, lt) || lex_le(b, a, lt),
    decreases a.len(),
{
    if a.len() > 0 && b.len() > 0 && a[0] == b[0] {
        lemma_lex_total(a.drop_first(), b.drop_first(), lt);
    }
}

pub proof fn lemma_lex_transitive<T>(a: Seq<T>, b: Seq<T>, c: Seq<T>, lt: spec_fn(T, T) -> bool)
    requires
        strict_order(lt),
        lex_le(a, b, lt),
        lex_le(b, c, lt),
    ensures
        lex_le(a, c, lt),
    decreases a.len(),
{
    if a.len() > 0 && a[0] == b[0] && b[0] == c[0] {
        lemma_lex_transitive(a.drop_first(), b.drop_first(), c.drop_first(), lt);
    }
}

pub proof fn lemma_lex_antisymmetric<T>(a: Seq<T>, b: Seq<T>, lt: spec_fn(T, T) -> bool)
    requires
        strict_order(lt),
        lex_le(a, b, lt),
        lex_le(b, a, lt),
    ensures
        a == b,
    decreases a.len(),
{
    if a.len() > 0 && b.len() > 0 {
        lemma_lex_antisymmetric(a.drop_first(), b.drop_first(), lt);
        assert(a =~= seq![a[0]] + a.drop_first());
        assert(b =~= seq![b[0]] + b.drop_first());
    } else {
        assert(a =~= b);
    }
}

/// Elements that are compared through `key` are arranged as their keys are.
pub proof fn lemma_arranged_map<T, U>(
    s: Seq<T>,
    key: spec_fn(T) -> U,
    le: spec_fn(T, T) -> bool,
    key_le: spec_fn(U, U) -> bool,
)
    requires
        forall|x: T, y: T| #[trigger] le(x, y) == key_le(key(x), key(y)),
    ensures
        arranged(s.map_values(key), key_le) == arranged(s, le).map_values(key),
    decreases s.len(),
{
    if s.len() == 0 {
        assert(s.map_values(key) =~= Seq::<U>::empty());
        assert(arranged(s, le).map_values(key) =~= Seq::<U>::empty());
    } else {
        lemma_arranged_map(s.drop_last(), key, le, key_le);
        assert(s.map_values(key).drop_last() =~= s.drop_last().map_values(key));
        lemma_placed_map(arranged(s.drop_last(), le), s.last(), key, le, key_le);
    }
}

proof fn lemma_placed_map<T, U>(
    s: Seq<T>,
    x: T,
    key: spec_fn(T) -> U,
    le: spec_fn(T, T) -> bool,
    key_le: spec_fn(U, U) -> bool,
)
    requires
        forall|x: T, y: T| #[trigger] le(x, y) == key_le(key(x), key(y)),
    ensures
        placed(s.map_values(key), key(x), key_le) == placed(s, x, le).map_values(key),
    decreases s.len(),
{
    if s.len() == 0 {
        assert(placed(s, x, le).map_values(key) =~= seq![key(x)]);
    } else {
        assert(s.map_values(key).drop_first() =~= s.drop_first().map_values(key));
        assert(s.map_values(key)[0] == key(s[0]));
        assert(le(s[0], x) == key_le(key(s[0]), key(x)));
        if le(s[0], x) {
            lemma_placed_map(s.drop_first(), x, key, le, key_le);
            assert((seq![s[0]] + placed(s.drop_first(), x, le)).map_values(key) =~= seq![key(s[0])]
                + placed(s.drop_first(), x, le).map_values(key));
        } else {
            assert((seq![x] + s).map_values(key) =~= seq![key(x)] + s.map_values(key));
        }
    }
}

/// An arrangement holds exactly the elements that it was made of, each as often.
pub proof fn law_arranged_keeps_elements<T>(s: Seq<T>, le: spec_fn(T, T) -> bool)
    ensures
        arranged(s, le).to_multiset() == s.to_multiset(),
        arranged(s, le).len() == s.len(),
    decreases s.len(),
{
    broadcast use vstd::seq_lib::group_to_multiset_ensures;

    if s.len() > 0 {
        law_arranged_keeps_elements(s.drop_last(), le);
        lemma_placed_keeps_elements(arranged(s.drop_last(), le), s.last(), le);
        assert(s =~= s.drop_last().push(s.last()));
    }
}

proof fn lemma_placed_keeps_elements<T>(s: Seq<T>, x: T, le: spec_fn(T, T) -> bool)
    ensures
        placed(s, x, le).to_multiset() == s.to_multiset().insert(x),
        placed(s, x, le).len() == s.len() + 1,
    decreases s.len(),
{
    broadcast use vstd::seq_lib::group_to_multiset_ensures;

    if s.len() == 0 {
        assert(seq![x] =~= Seq::<T>::empty().push(x));
        assert(s =~= Seq::<T>::empty());
    } else if le(s[0], x) {
        lemma_placed_keeps_elements(s.drop_first(), x, le);
        let rest = placed(s.drop_first(), x, le);
        vstd::seq_lib::lemma_multiset_commutative(seq![s[0]], rest);
        vstd::seq_lib::lemma_multiset_commutative(seq![s[0]], s.drop_first());
        assert(s =~= seq![s[0]] + s.drop_first());
        assert((seq![s[0]] + rest).to_multiset() =~= s.to_multiset().insert(x));
    } else {
        vstd::seq_lib::lemma_multiset_commutative(seq![x], s);
        assert(seq![x] =~= Seq::<T>::empty().push(x));
        assert((seq![x] + s).to_multiset() =~= s.to_multiset().insert(x));
    }
}

/// An arrangement stands in order.
pub proof fn law_arranged_is_in_order<T>(s: Seq<T>, le: spec_fn(T, T) -> bool)
    requires
        total_preorder(le),
    ensures
        in_order(arranged(s, le), le),
    decreases s.len(),
{
    if s.len() > 0 {
        law_arranged_is_in_order(s.drop_last(), le);
        lemma_placed_is_in_order(arranged(s.drop_last(), le), s.last(), le);
    }
}

proof fn lemma_placed_is_in_order<T>(s: Seq<T>, x: T, le: spec_fn(T, T) -> bool)
    requires
        total_preorder(le),
        in_order(s, le),
    ensures
        in_order(placed(s, x, le), le),
        forall|i: int|
            0 <= i < placed(s, x, le).len() ==> (#[trigger] placed(s, x, le)[i] == x || s.contains(
                placed(s, x, le)[i],
            )),
    decreases s.len(),
{
    let p = placed(s, x, le);
    if s.len() == 0 {
        assert(le(x, x));
    } else if le(s[0], x) {
        let t = s.drop_first();
        assert forall|i: int, j: int| 0 <= i <= j < t.len() implies #[trigger] le(t[i], t[j]) by {
            assert(le(s[i + 1], s[j + 1]));
        }
        lemma_placed_is_in_order(t, x, le);
        let q = placed(t, x, le);
        assert forall|i: int| 0 <= i < p.len() implies #[trigger] p[i] == x || s.contains(p[i]) by {
            if i > 0 {
                assert(p[i] == q[i - 1]);
                if q[i - 1] != x {
                    let k = t.index_of(q[i - 1]);
                    assert(s[k + 1] == p[i]);
                }
            } else {
                assert(s[0] == p[0]);
            }
        }
        assert forall|i: int, j: int| 0 <= i <= j < p.len() implies #[trigger] le(p[i], p[j]) by {
            if i > 0 {
                assert(le(q[i - 1], q[j - 1]));
            } else if j > 0 {
                assert(p[j] == x || s.contains(p[j]));
                if p[j] != x {
                    let k = s.index_of(p[j]);
                    assert(le(s[0], s[k]));
                }
            } else {
                assert(le(s[0], s[0]));
            }
        }
    } else {
        assert forall|i: int, j: int| 0 <= i <= j < p.len() implies #[trigger] le(p[i], p[j]) by {
            assert(le(x, s[0]));
            if i > 0 {
                assert(le(s[i - 1], s[j - 1]));
            } else if j > 0 {
                assert(le(s[0], s[j - 1]));
            } else {
                assert(le(x, x));
            }
        }
        assert forall|i: int| 0 <= i < p.len() implies #[trigger] p[i] == x || s.contains(p[i]) by {
            if i > 0 {
                assert(s[i - 1] == p[i]);
            }
        }
    }
}

/// The items in the opposite order.
pub fn reversed<T>(items: Vec<T>) -> (r: Vec<T>)
    ensures
        r@ == items@.reverse(),
{
    let mut left = items;
    let mut r: Vec<T> = Vec::new();
    let ghost all = items@;
    while left.len() > 0
        invariant
            left@.len() + r@.len() == all.len(),
            left@ =~= all.take(left@.len() as int),
            r@ =~= all.reverse().take(r@.len() as int),
        decreases left@.len(),
    {
        let item = left.pop().unwrap();
        r.push(item);
    }
    assert(r@ =~= all.reverse());
    r
}

/// The sequences are the same up to `k`, where `a` ends or has the lesser element.
pub open spec fn first_differ_at<T>(
    a: Seq<T>,
    b: Seq<T>,
    k: int,
    lt: spec_fn(T, T) -> bool,
) -> bool {
    &&& 0 <= k <= a.len()
    &&& k <= b.len()
    &&& forall|i: int| 0 <= i < k ==> #[trigger] a[i] == b[i]
    &&& k == a.len() || (k < b.len() && lt(a[k], b[k]))
}

/// In dictionary order the first difference decides: a sequence stands before
/// another, or is the same, where it ends at or is less at the first place in
/// which they differ.
pub proof fn law_first_difference_decides<T>(a: Seq<T>, b: Seq<T>, lt: spec_fn(T, T) -> bool)
    ensures
        lex_le(a, b, lt) <==> exists|k: int| #[trigger] first_differ_at(a, b, k, lt),
    decreases a.len(),
{
    if a.len() == 0 {
        assert(first_differ_at(a, b, 0, lt));
    } else if b.len() > 0 {
        let x = a.drop_first();
        let y = b.drop_first();
        law_first_difference_decides(x, y, lt);
        if lex_le(a, b, lt) {
            if lt(a[0], b[0]) {
                assert(first_differ_at(a, b, 0, lt));
            } else {
                let k = choose|k: int| #[trigger] first_differ_at(x, y, k, lt);
                assert forall|i: int| 0 <= i < k + 1 implies #[trigger] a[i] == b[i] by {
                    if i > 0 {
                        assert(x[i - 1] == y[i - 1]);
                    }
                }
                assert(first_differ_at(a, b, k + 1, lt));
            }
        }
        if exists|k: int| #[trigger] first_differ_at(a, b, k, lt) {
            let k = choose|k: int| #[trigger] first_differ_at(a, b, k, lt);
            if k > 0 {
                assert(a[0] == b[0]);
                assert forall|i: int| 0 <= i < k - 1 implies #[trigger] x[i] == y[i] by {
                    assert(a[i + 1] == b[i + 1]);
                }
                assert(first_differ_at(x, y, k - 1, lt));
            }
        }
    }
}

/// How many leading elements of `s` may stand before `x`.
spec fn leading<T>(s: Seq<T>, x: T, le: spec_fn(T, T) -> bool) -> nat
    decreases s.len(),
{
    if s.len() > 0 && le(s[0], x) {
        1 + leading(s.drop_first(), x, le)
    } else {
        0
    }
}

proof fn lemma_placed_is_an_insertion<T>(s: Seq<T>, x: T, le: spec_fn(T, T) -> bool)
    ensures
        leading(s, x, le) <= s.len(),
        placed(s, x, le) == s.insert(leading(s, x, le) as int, x),
        forall|i: int| 0 <= i < leading(s, x, le) ==> le(#[trigger] s[i], x),
        leading(s, x, le) < s.len() ==> !le(s[leading(s, x, le) as int], x),
    decreases s.len(),
{
    let k = leading(s, x, le) as int;
    if s.len() > 0 && le(s[0], x) {
        let t = s.drop_first();
        lemma_placed_is_an_insertion(t, x, le);
        assert forall|i: int| 0 <= i < k implies le(#[trigger] s[i], x) by {
            if i > 0 {
                assert(le(t[i - 1], x));
            }
        }
        assert(placed(s, x, le) =~= s.insert(k, x));
    } else {
        assert(placed(s, x, le) =~= s.insert(0, x));
    }
}

/// An arrangement takes each element from a place of its own. Every element may
/// stand before each one behind it; of two that may stand either way, the one that
/// was first stays first. These are the places.
pub proof fn law_arrangement_is_stable<T>(s: Seq<T>, le: spec_fn(T, T) -> bool) -> (at: Seq<int>)
    requires
        total_preorder(le),
    ensures
        at.len() == s.len(),
        arranged(s, le).len() == s.len(),
        forall|i: int| 0 <= i < at.len() ==> 0 <= #[trigger] at[i] < s.len(),
        forall|i: int| 0 <= i < at.len() ==> #[trigger] arranged(s, le)[i] == s[at[i]],
        forall|i: int, j: int|
            0 <= i < j < at.len() ==> (#[trigger] at[i]) != (#[trigger] at[j]) && le(
                s[at[i]],
                s[at[j]],
            ) && (le(s[at[j]], s[at[i]]) ==> at[i] < at[j]),
    decreases s.len(),
{
    if s.len() == 0 {
        Seq::empty()
    } else {
        let t = s.drop_last();
        let x = s.last();
        let n = t.len() as int;
        let before = law_arrangement_is_stable(t, le);
        let r = arranged(t, le);
        lemma_placed_is_an_insertion(r, x, le);
        let k = leading(r, x, le) as int;
        let at = before.insert(k, n);
        assert(arranged(s, le) == r.insert(k, x));
        assert forall|i: int| 0 <= i < at.len() implies #[trigger] arranged(s, le)[i]
            == s[at[i]] by {
            if i < k {
                assert(r[i] == t[before[i]]);
            } else if i > k {
                assert(r[i - 1] == t[before[i - 1]]);
            }
        }
        assert forall|i: int, j: int| 0 <= i < j < at.len() implies (#[trigger] at[i])
            != (#[trigger] at[j]) && le(s[at[i]], s[at[j]]) && (le(s[at[j]], s[at[i]]) ==> at[i]
            < at[j]) by {
            let a = if i < k {
                i
            } else {
                i - 1
            };
            let b = if j < k {
                j
            } else {
                j - 1
            };
            if i == k {
                assert(at[j] == before[b]);
                assert(r[k] == t[before[k]]);
                assert(r[b] == t[before[b]]);
                assert(le(r[k], r[k]) || le(r[k], r[k]));
                assert(le(t[before[k]], t[before[b]]));
                assert(le(x, r[k]) || le(r[k], x));
                if le(r[b], x) {
                    assert(le(r[k], x));
                }
            } else if j == k {
                assert(at[i] == before[a]);
                assert(r[a] == t[before[a]]);
                assert(le(r[a], x));
            } else {
                assert(at[i] == before[a] && at[j] == before[b]);
            }
        }
        at
    }
}

} // verus!
