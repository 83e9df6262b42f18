//! The order in which the entries of a directory are visited.

use vstd::prelude::*;

verus! {

/// Whether `a` does not come after `b` in the order of their bytes.
pub open spec fn not_after(a: Seq<u8>, b: Seq<u8>) -> bool
    decreases a.len(),
{
    if a.len() == 0 {
        true
    } else if b.len() == 0 {
        false
    } else if a[0] != b[0] {
        a[0] < b[0]
    } else {
        not_after(a.drop_first(), b.drop_first())
    }
}

/// How many of the first `n` entries of `order` come before name `k`, given
/// that they are in order: those up to the last one that does not come after
/// it.
pub open spec fn place(names: Seq<Seq<u8>>, order: Seq<int>, k: int, n: nat) -> nat
    decreases n,
{
    if n == 0 {
        0
    } else if not_after(names[order[n - 1]], names[k]) {
        n
    } else {
        place(names, order, k, (n - 1) as nat)
    }
}

/// The numbers of the first `n` names in the order of the names' bytes. Equal
/// names keep their order.
pub open spec fn visit_order(names: Seq<Seq<u8>>, n: nat) -> Seq<int>
    decreases n,
{
    if n == 0 {
        Seq::empty()
    } else {
        let before = visit_order(names, (n - 1) as nat);
        before.insert(place(names, before, n - 1, before.len()) as int, n - 1)
    }
}

/// The bytes of each name.
pub open spec fn byte_views(names: Seq<Vec<u8>>) -> Seq<Seq<u8>> {
    Seq::new(names.len(), |i: int| names[i]@)
}

/// Numbers as integers.
pub open spec fn as_ints(s: Seq<usize>) -> Seq<int> {
    Seq::new(s.len(), |i: int| s[i] as int)
}

/// Whether `a` does not come after `b` in the order of their bytes.
pub fn comes_not_after(a: &Vec<u8>, b: &Vec<u8>) -> (r: bool)
    ensures
        r == not_after(a@, b@),
{
    let mut i: usize = 0;
    assert(a@.skip(0) =~= a@ && b@.skip(0) =~= b@);
    while i < a.len()
        invariant
            i <= a@.len(),
            i <= b@.len(),
            not_after(a@, b@) == not_after(a@.skip(i as int), b@.skip(i as int)),
        decreases a@.len() - i,
    {
        if i >= b.len() {
            return false;
        }
        if a[i] != b[i] {
            return a[i] < b[i];
        }
        assert(a@.skip(i as int).drop_first() =~= a@.skip(i as int + 1));
        assert(b@.skip(i as int).drop_first() =~= b@.skip(i as int + 1));
        i = i + 1;
    }
    true
}

/// The numbers of the names in the order of the names' bytes.
pub fn in_order(names: &Vec<Vec<u8>>) -> (r: Vec<usize>)
    ensures
        as_ints(r@) == visit_order(byte_views(names@), names@.len()),
        r@.len() == names@.len(),
        forall|i: int| 0 <= i < r@.len() ==> (#[trigger] r@[i]) < names@.len(),
{
    let ghost views = byte_views(names@);
    let mut order: Vec<usize> = Vec::new();
    let n: usize = names.len();
    assert(as_ints(order@) =~= visit_order(views, 0));
    for k in 0..n
        invariant
            n == names@.len(),
            views == byte_views(names@),
            order@.len() == k,
            forall|i: int| 0 <= i < order@.len() ==> (#[trigger] order@[i]) < k,
            as_ints(order@) == visit_order(views, k as nat),
    {
        let mut p: usize = order.len();
        while p > 0 && !comes_not_after(&names[order[p - 1]], &names[k])
            invariant
                k < n,
                n == names@.len(),
                views == byte_views(names@),
                order@.len() == k,
                p <= order@.len(),
                forall|i: int| 0 <= i < order@.len() ==> (#[trigger] order@[i]) < k,
                place(views, as_ints(order@), k as int, order@.len()) == place(
                    views,
                    as_ints(order@),
                    k as int,
                    p as nat,
                ),
            decreases p,
        {
            p = p - 1;
        }
        let ghost before = order@;
        order.insert(p, k);
        assert(as_ints(order@) =~= as_ints(before).insert(p as int, k as int));
    }
    order
}

// ---------------------------------------------------------------------------
// Laws
// ---------------------------------------------------------------------------

/// The order of bytes is total, transitive, and equal only to itself.
pub proof fn law_byte_order(a: Seq<u8>, b: Seq<u8>, c: Seq<u8>)
    ensures
        not_after(a, a),
        not_after(a, b) || not_after(b, a),
        not_after(a, b) && not_after(b, a) ==> a == b,
        not_after(a, b) && not_after(b, c) ==> not_after(a, c),
    decreases a.len() + b.len() + c.len(),
{
    if a.len() > 0 {
        let x = a.drop_first();
        if b.len() > 0 {
            let y = b.drop_first();
            if c.len() > 0 {
                law_byte_order(x, y, c.drop_first());
            } else {
                law_byte_order(x, y, c);
            }
            if not_after(a, b) && not_after(b, a) {
                assert(a =~= seq![a[0]] + x);
                assert(b =~= seq![b[0]] + y);
            }
        } else {
            law_byte_order(x, b, c);
        }
    } else if b.len() == 0 {
        assert(a =~= b);
    }
}

/// Names are ordered by the first byte in which they differ, and one that another
/// starts with comes before it.
pub proof fn law_first_difference(start: Seq<u8>, a: Seq<u8>, b: Seq<u8>)
    ensures
        not_after(start, start + a),
        a.len() > 0 ==> !not_after(start + a, start),
        a.len() > 0 && b.len() > 0 && a[0] != b[0] ==> (not_after(start + a, start + b) <==> a[0]
            < b[0]),
    decreases start.len(),
{
    if start.len() > 0 {
        let rest = start.drop_first();
        assert((start + a).drop_first() =~= rest + a);
        assert((start + b).drop_first() =~= rest + b);
        law_first_difference(rest, a, b);
    } else {
        assert(start + a =~= a);
        assert(start + b =~= b);
    }
}

/// Whether the names with the numbers in `order` are in the order of their
/// bytes, equal ones by their numbers.
pub open spec fn ordered(names: Seq<Seq<u8>>, order: Seq<int>) -> bool {
    forall|i: int, j: int|
        0 <= i < j < order.len() ==> not_after(#[trigger] names[order[i]], #[trigger] names[order[j]])
            && (names[order[i]] == names[order[j]] ==> order[i] < order[j])
}

proof fn lemma_place(names: Seq<Seq<u8>>, order: Seq<int>, k: int, n: nat)
    requires
        n <= order.len(),
    ensures
        place(names, order, k, n) <= n,
        place(names, order, k, n) > 0 ==> not_after(
            names[order[place(names, order, k, n) - 1]],
            names[k],
        ),
        forall|i: int|
            place(names, order, k, n) <= i < n ==> !not_after(#[trigger] names[order[i]], names[k]),
    decreases n,
{
    if n > 0 && !not_after(names[order[n - 1]], names[k]) {
        lemma_place(names, order, k, (n - 1) as nat);
    }
}

/// Every entry is visited once, and the visits are in the order of the names.
pub proof fn law_visit_order(names: Seq<Seq<u8>>, n: nat)
    requires
        n <= names.len(),
    ensures
        visit_order(names, n).len() == n,
        forall|i: int|
            0 <= i < n ==> 0 <= #[trigger] visit_order(names, n)[i] < n,
        visit_order(names, n).no_duplicates(),
        forall|k: int| 0 <= k < n ==> #[trigger] visit_order(names, n).contains(k),
        ordered(names, visit_order(names, n)),
    decreases n,
{
    if n > 0 {
        let m = (n - 1) as nat;
        let before = visit_order(names, m);
        let p = place(names, before, m as int, before.len()) as int;
        let after = visit_order(names, n);
        law_visit_order(names, m);
        lemma_place(names, before, m as int, before.len());
        assert(after == before.insert(p, m as int));
        assert forall|i: int| 0 <= i < n implies 0 <= #[trigger] after[i] < n by {
            if i < p {
                assert(after[i] == before[i]);
            } else if i > p {
                assert(after[i] == before[i - 1]);
            }
        }
        assert forall|k: int| 0 <= k < n implies #[trigger] after.contains(k) by {
            if k == m {
                assert(after[p] == k);
            } else {
                assert(before.contains(k));
                let i = choose|i: int| 0 <= i < before.len() && before[i] == k;
                if i < p {
                    assert(after[i] == k);
                } else {
                    assert(after[i + 1] == k);
                }
            }
        }
        assert forall|i: int, j: int| 0 <= i < j < after.len() implies not_after(
            #[trigger] names[after[i]],
            #[trigger] names[after[j]],
        ) && (names[after[i]] == names[after[j]] ==> after[i] < after[j]) by {
            let new = names[m as int];
            if j < p {
                assert(after[i] == before[i] && after[j] == before[j]);
                assert(not_after(names[before[i]], names[before[j]]));
            } else if i > p {
                assert(after[i] == before[i - 1] && after[j] == before[j - 1]);
                assert(not_after(names[before[i - 1]], names[before[j - 1]]));
            } else if j == p {
                assert(after[i] == before[i] && after[j] == m);
                if i < p - 1 {
                    assert(not_after(names[before[i]], names[before[p - 1]]));
                }
                law_byte_order(names[before[i]], names[before[p - 1]], new);
                law_byte_order(names[before[p - 1]], new, new);
            } else if i == p {
                assert(after[i] == m && after[j] == before[j - 1]);
                assert(!not_after(names[before[j - 1]], new));
                law_byte_order(names[before[j - 1]], new, new);
                law_byte_order(new, new, new);
            } else {
                assert(after[i] == before[i] && after[j] == before[j - 1]);
                assert(not_after(names[before[i]], names[before[j - 1]]));
            }
        }
    }
}

/// The weights of the numbers in `order`, added up.
pub open spec fn total(order: Seq<int>, weight: spec_fn(int) -> nat) -> nat
    decreases order.len(),
{
    if order.len() == 0 {
        0
    } else {
        total(order.drop_last(), weight) + weight(order.last())
    }
}

/// The weights of the first `n` numbers, added up.
pub open spec fn total_to(n: nat, weight: spec_fn(int) -> nat) -> nat
    decreases n,
{
    if n == 0 {
        0
    } else {
        total_to((n - 1) as nat, weight) + weight(n - 1)
    }
}

proof fn lemma_total_insert(order: Seq<int>, p: int, k: int, weight: spec_fn(int) -> nat)
    requires
        0 <= p <= order.len(),
    ensures
        total(order.insert(p, k), weight) == total(order, weight) + weight(k),
    decreases order.len(),
{
    let after = order.insert(p, k);
    if p == order.len() {
        assert(after.drop_last() =~= order);
    } else {
        assert(after.drop_last() =~= order.drop_last().insert(p, k));
        assert(after.last() == order.last());
        lemma_total_insert(order.drop_last(), p, k, weight);
    }
}

/// A visit of all entries comes to as much as counting them through does.
pub proof fn law_visit_total(names: Seq<Seq<u8>>, n: nat, weight: spec_fn(int) -> nat)
    requires
        n <= names.len(),
    ensures
        total(visit_order(names, n), weight) == total_to(n, weight),
    decreases n,
{
    if n > 0 {
        let m = (n - 1) as nat;
        let before = visit_order(names, m);
        law_visit_total(names, m, weight);
        law_visit_order(names, m);
        lemma_place(names, before, m as int, before.len());
        lemma_total_insert(
            before,
            place(names, before, m as int, before.len()) as int,
            m as int,
            weight,
        );
    }
}

} // verus!
