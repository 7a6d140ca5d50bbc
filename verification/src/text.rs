//! Names: membership in lists and their alphabetical order.

use crate::recipe::names_of;
use vstd::prelude::*;

verus! {

/// `a` comes strictly before `b` in the order of `str`: character by
/// character (by code point, which is also the order of their UTF-8 bytes),
/// a proper prefix first.
pub open spec fn name_lt(a: Seq<char>, b: Seq<char>) -> bool
    decreases a.len(),
{
    if a.len() == 0 {
        b.len() > 0
    } else if b.len() == 0 {
        false
    } else if a[0] != b[0] {
        (a[0] as int) < (b[0] as int)
    } else {
        name_lt(a.drop_first(), b.drop_first())
    }
}

/// Where `a` and `b` first differ, at position `k` (they agree before it):
/// `a` comes first exactly when it ends there while `b` goes on, or its
/// character there has the lower code point.
pub proof fn lemma_name_lt_first_difference(a: Seq<char>, b: Seq<char>, k: int)
    requires
        0 <= k <= a.len(),
        k <= b.len(),
        a.take(k) == b.take(k),
        k == a.len() || k == b.len() || a[k] != b[k],
    ensures
        name_lt(a, b) == ((k == a.len() && k < b.len()) || (k < a.len() && k < b.len() && (a[k] as int) < (
        b[k] as int))),
    decreases k,
{
    if k > 0 {
        assert(a[0] == a.take(k)[0] && b[0] == b.take(k)[0]);
        let a1 = a.drop_first();
        let b1 = b.drop_first();
        assert(a1.take(k - 1) =~= a.take(k).drop_first());
        assert(b1.take(k - 1) =~= b.take(k).drop_first());
        if k < a.len() {
            assert(a1[k - 1] == a[k]);
        }
        if k < b.len() {
            assert(b1[k - 1] == b[k]);
        }
        lemma_name_lt_first_difference(a1, b1, k - 1);
    }
}

/// The order is irreflexive.
pub proof fn lemma_name_lt_irreflexive(a: Seq<char>)
    ensures
        !name_lt(a, a),
    decreases a.len(),
{
    if a.len() > 0 {
        lemma_name_lt_irreflexive(a.drop_first());
    }
}

/// The order is asymmetric.
pub proof fn lemma_name_lt_asymmetric(a: Seq<char>, b: Seq<char>)
    ensures
        !(name_lt(a, b) && name_lt(b, a)),
    decreases a.len(),
{
    if a.len() > 0 && b.len() > 0 && a[0] == b[0] {
        lemma_name_lt_asymmetric(a.drop_first(), b.drop_first());
    }
}

/// Two different names are ordered one way or the other.
pub proof fn lemma_name_lt_total(a: Seq<char>, b: Seq<char>)
    requires
        a != b,
    ensures
        name_lt(a, b) || name_lt(b, a),
    decreases a.len(),
{
    if a.len() == 0 {
        if b.len() == 0 {
            assert(a =~= b);
        }
    } else if b.len() == 0 {
    } else if a[0] != b[0] {
    } else {
        if a.drop_first() == b.drop_first() {
            assert(a =~= seq![a[0]] + a.drop_first());
            assert(b =~= seq![b[0]] + b.drop_first());
        }
        lemma_name_lt_total(a.drop_first(), b.drop_first());
    }
}

/// The order is transitive.
pub proof fn lemma_name_lt_transitive(a: Seq<char>, b: Seq<char>, c: Seq<char>)
    requires
        name_lt(a, b),
        name_lt(b, c),
    ensures
        name_lt(a, c),
    decreases a.len(),
{
    if a.len() > 0 && b.len() > 0 && c.len() > 0 && a[0] == b[0] && b[0] == c[0] {
        lemma_name_lt_transitive(a.drop_first(), b.drop_first(), c.drop_first());
    }
}

/// Whether `a` comes strictly before `b` (the order of `String`).
pub fn name_less(a: &String, b: &String) -> (res: bool)
    ensures
        res == name_lt(a@, b@),
{
    let sa = a.as_str();
    let sb = b.as_str();
    let la = sa.unicode_len();
    let lb = sb.unicode_len();
    let mut i: usize = 0;
    assert(a@.skip(0) =~= a@);
    assert(b@.skip(0) =~= b@);
    while i < la && i < lb
        invariant
            sa@ == a@,
            sb@ == b@,
            la == a@.len(),
            lb == b@.len(),
            i <= la,
            i <= lb,
            name_lt(a@, b@) == name_lt(a@.skip(i as int), b@.skip(i as int)),
        decreases la - i,
    {
        let ca = sa.get_char(i);
        let cb = sb.get_char(i);
        let ghost ra = a@.skip(i as int);
        let ghost rb = b@.skip(i as int);
        assert(ra[0] == ca && rb[0] == cb);
        if ca != cb {
            return (ca as u32) < (cb as u32);
        }
        assert(ra.drop_first() =~= a@.skip(i + 1));
        assert(rb.drop_first() =~= b@.skip(i + 1));
        i = i + 1;
    }
    i == la && i < lb
}

/// Whether `name` occurs in `v`.
pub fn contains_name(v: &Vec<String>, name: &String) -> (res: bool)
    ensures
        res == names_of(v@).contains(name@),
{
    let mut i: usize = 0;
    while i < v.len()
        invariant
            i <= v@.len(),
            forall|k: int| 0 <= k < i ==> names_of(v@)[k] != name@,
        decreases v@.len() - i,
    {
        if v[i] == *name {
            assert(names_of(v@)[i as int] == name@);
            return true;
        }
        i = i + 1;
    }
    false
}

/// Names in strictly increasing order.
pub open spec fn strictly_sorted(s: Seq<Seq<char>>) -> bool {
    forall|i: int, j: int| 0 <= i < j < s.len() ==> name_lt(#[trigger] s[i], #[trigger] s[j])
}

/// The names of `v` sorted alphabetically; `v` must not repeat a name.
pub fn sort_names(v: Vec<String>) -> (res: Vec<String>)
    requires
        names_of(v@).no_duplicates(),
    ensures
        strictly_sorted(names_of(res@)),
        names_of(res@).to_set() == names_of(v@).to_set(),
        res@.len() == v@.len(),
{
    let mut res: Vec<String> = Vec::new();
    let mut i: usize = 0;
    let ghost src = names_of(v@);
    while i < v.len()
        invariant
            src == names_of(v@),
            src.no_duplicates(),
            i <= v@.len(),
            res@.len() == i,
            strictly_sorted(names_of(res@)),
            names_of(res@).to_set() == src.take(i as int).to_set(),
        decreases v@.len() - i,
    {
        let x = v[i].clone();
        // first position whose name comes after x
        let mut p: usize = 0;
        while p < res.len() && !name_less(&x, &res[p])
            invariant
                p <= res@.len(),
                forall|k: int| 0 <= k < p ==> !name_lt(x@, #[trigger] names_of(res@)[k]),
            decreases res@.len() - p,
        {
            p = p + 1;
        }
        let ghost before = names_of(res@);
        proof {
            assert(!src.take(i as int).contains(x@)) by {
                if src.take(i as int).contains(x@) {
                    let k = choose|k: int| 0 <= k < i && src.take(i as int)[k] == x@;
                    assert(src[k] == src[i as int]);
                }
            }
            assert(!before.to_set().contains(x@));
            assert forall|k: int| 0 <= k < p implies name_lt(#[trigger] before[k], x@) by {
                assert(before.to_set().contains(before[k]));
                lemma_name_lt_total(before[k], x@);
            }
            assert forall|k: int| p <= k < before.len() implies name_lt(x@, #[trigger] before[k]) by {
                if k > p {
                    lemma_name_lt_transitive(x@, before[p as int], before[k]);
                }
            }
        }
        res.insert(p, x);
        proof {
            let after = names_of(res@);
            assert(after =~= before.insert(p as int, x@));
            assert forall|a: int, b: int| 0 <= a < b < after.len() implies name_lt(#[trigger] after[a], #[trigger] after[b]) by {
                if a < p && b < p {
                    assert(after[a] == before[a] && after[b] == before[b]);
                } else if a < p && b == p {
                } else if a < p {
                    assert(after[a] == before[a] && after[b] == before[b - 1]);
                } else if a == p {
                    assert(after[b] == before[b - 1]);
                } else {
                    assert(after[a] == before[a - 1] && after[b] == before[b - 1]);
                }
            }
            assert(src.take(i + 1) =~= src.take(i as int).push(x@));
            assert forall|y: Seq<char>| after.to_set().contains(y) <==> src.take(i + 1).to_set().contains(y) by {
                if after.to_set().contains(y) {
                    let k = choose|k: int| 0 <= k < after.len() && after[k] == y;
                    if k < p {
                        assert(before[k] == y);
                        assert(before.to_set().contains(y));
                    } else if k > p {
                        assert(before[k - 1] == y);
                        assert(before.to_set().contains(y));
                    }
                    if y != x@ {
                        assert(src.take(i as int).to_set().contains(y));
                        let m = choose|m: int| 0 <= m < i && src.take(i as int)[m] == y;
                        assert(src.take(i + 1)[m] == y);
                    } else {
                        assert(src.take(i + 1)[i as int] == y);
                    }
                }
                if src.take(i + 1).to_set().contains(y) {
                    let m = choose|m: int| 0 <= m <= i && #[trigger] src.take(i + 1)[m] == y;
                    if m < i {
                        assert(src.take(i as int)[m] == y);
                        assert(src.take(i as int).to_set().contains(y));
                        assert(before.to_set().contains(y));
                        let k = choose|k: int| 0 <= k < before.len() && before[k] == y;
                        if k < p {
                            assert(after[k] == y);
                        } else {
                            assert(after[k + 1] == y);
                        }
                    } else {
                        assert(after[p as int] == y);
                    }
                }
            }
            assert(after.to_set() =~= src.take(i + 1).to_set());
        }
        i = i + 1;
    }
    proof {
        assert(src.take(v@.len() as int) =~= src);
    }
    res
}

/// Whether `name` begins with `prefix`.
pub fn starts_with_name(name: &String, prefix: &String) -> (res: bool)
    ensures
        res == prefix@.is_prefix_of(name@),
{
    let sn = name.as_str();
    let sp = prefix.as_str();
    let ln = sn.unicode_len();
    let lp = sp.unicode_len();
    if lp > ln {
        return false;
    }
    let mut i: usize = 0;
    while i < lp
        invariant
            sn@ == name@,
            sp@ == prefix@,
            ln == name@.len(),
            lp == prefix@.len(),
            lp <= ln,
            i <= lp,
            forall|k: int| 0 <= k < i ==> prefix@[k] == name@[k],
        decreases lp - i,
    {
        if sn.get_char(i) != sp.get_char(i) {
            assert(name@.subrange(0, lp as int)[i as int] == name@[i as int]);
            return false;
        }
        i = i + 1;
    }
    assert(prefix@ =~= name@.subrange(0, lp as int));
    true
}

/// The names of `selections` that begin with `prefix`, in their order.
pub fn names_with_prefix(selections: &Vec<String>, prefix: &String) -> (res: Vec<String>)
    ensures
        names_of(res@) == names_of(selections@).filter(|n: Seq<char>| prefix@.is_prefix_of(n)),
{
    let ghost pred = |n: Seq<char>| prefix@.is_prefix_of(n);
    let ghost src = names_of(selections@);
    let mut res: Vec<String> = Vec::new();
    let mut i: usize = 0;
    proof {
        reveal(Seq::filter);
        assert(src.take(0).filter(pred) =~= Seq::<Seq<char>>::empty());
    }
    while i < selections.len()
        invariant
            src == names_of(selections@),
            pred == (|n: Seq<char>| prefix@.is_prefix_of(n)),
            i <= selections@.len(),
            names_of(res@) == src.take(i as int).filter(pred),
        decreases selections@.len() - i,
    {
        proof {
            reveal(Seq::filter);
            assert(src.take(i + 1).drop_last() =~= src.take(i as int));
            assert(src.take(i + 1).last() == selections@[i as int]@);
        }
        if starts_with_name(&selections[i], prefix) {
            let ghost before = res@;
            res.push(selections[i].clone());
            assert(names_of(res@) =~= names_of(before).push(selections@[i as int]@));
        }
        i = i + 1;
    }
    assert(src.take(selections@.len() as int) =~= src);
    res
}

/// Two lists that hold the same names, each strictly increasing in an
/// irreflexive, asymmetric relation `lt`, are the same list.
pub proof fn lemma_strictly_ordered_unique(
    a: Seq<Seq<char>>,
    b: Seq<Seq<char>>,
    lt: spec_fn(Seq<char>, Seq<char>) -> bool,
)
    requires
        forall|x: Seq<char>| !#[trigger] lt(x, x),
        forall|x: Seq<char>, y: Seq<char>| #[trigger] lt(x, y) ==> !lt(y, x),
        forall|i: int, j: int| 0 <= i < j < a.len() ==> lt(#[trigger] a[i], #[trigger] a[j]),
        forall|i: int, j: int| 0 <= i < j < b.len() ==> lt(#[trigger] b[i], #[trigger] b[j]),
        a.to_set() == b.to_set(),
    ensures
        a == b,
    decreases a.len(),
{
    if a.len() == 0 {
        if b.len() > 0 {
            assert(b.to_set().contains(b[0]));
        }
        assert(a =~= b);
    } else {
        assert(a.to_set().contains(a[0]));
        assert(b.len() > 0);
        let m = choose|m: int| 0 <= m < b.len() && b[m] == a[0];
        assert(b.to_set().contains(b[0]));
        let n = choose|n: int| 0 <= n < a.len() && a[n] == b[0];
        if m > 0 {
            assert(lt(b[0], b[m]));
            if n > 0 {
                assert(lt(a[0], a[n]));
            }
        }
        assert(a[0] == b[0]);
        let ra = a.drop_first();
        let rb = b.drop_first();
        assert forall|y: Seq<char>| ra.to_set().contains(y) <==> rb.to_set().contains(y) by {
            if ra.to_set().contains(y) {
                let k = choose|k: int| 0 <= k < ra.len() && ra[k] == y;
                assert(a[k + 1] == y);
                assert(lt(a[0], a[k + 1]));
                assert(a.to_set().contains(y));
                let l = choose|l: int| 0 <= l < b.len() && b[l] == y;
                assert(l != 0);
                assert(rb[l - 1] == y);
            }
            if rb.to_set().contains(y) {
                let k = choose|k: int| 0 <= k < rb.len() && rb[k] == y;
                assert(b[k + 1] == y);
                assert(lt(b[0], b[k + 1]));
                assert(b.to_set().contains(y));
                let l = choose|l: int| 0 <= l < a.len() && a[l] == y;
                assert(l != 0);
                assert(ra[l - 1] == y);
            }
        }
        assert(ra.to_set() =~= rb.to_set());
        assert forall|i: int, j: int| 0 <= i < j < ra.len() implies lt(#[trigger] ra[i], #[trigger] ra[j]) by {
            assert(lt(a[i + 1], a[j + 1]));
        }
        assert forall|i: int, j: int| 0 <= i < j < rb.len() implies lt(#[trigger] rb[i], #[trigger] rb[j]) by {
            assert(lt(b[i + 1], b[j + 1]));
        }
        lemma_strictly_ordered_unique(ra, rb, lt);
        assert forall|k: int| 0 <= k < a.len() implies a[k] == b[k] by {
            if k > 0 {
                assert(a[k] == ra[k - 1]);
                assert(b[k] == rb[k - 1]);
            }
        }
        assert(a =~= b);
    }
}

} // verus!
