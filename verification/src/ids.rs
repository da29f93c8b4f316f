//! Ordering of endpoint identifiers: strings compared character by
//! character (code point order, which is also the byte order of their UTF-8
//! text), a shorter prefix first.

use vstd::prelude::*;
use crate::table::string_views;

verus! {

/// `a` sorts strictly before `b`.
pub open spec fn id_lt(a: Seq<char>, b: Seq<char>) -> bool
    decreases a.len(),
{
    if a.len() == 0 {
        b.len() > 0
    } else if b.len() == 0 {
        false
    } else if a[0] != b[0] {
        (a[0] as int) < (b[0] as int)
    } else {
        id_lt(a.drop_first(), b.drop_first())
    }
}

/// No identifier sorts before itself.
pub proof fn lemma_id_lt_irreflexive(a: Seq<char>)
    ensures
        !id_lt(a, a),
    decreases a.len(),
{
    if a.len() > 0 {
        lemma_id_lt_irreflexive(a.drop_first());
    }
}

/// The order is transitive.
pub proof fn lemma_id_lt_transitive(a: Seq<char>, b: Seq<char>, c: Seq<char>)
    requires
        id_lt(a, b),
        id_lt(b, c),
    ensures
        id_lt(a, c),
    decreases a.len(),
{
    if a.len() > 0 && b.len() > 0 && c.len() > 0 {
        if a[0] == b[0] && b[0] == c[0] {
            lemma_id_lt_transitive(a.drop_first(), b.drop_first(), c.drop_first());
        }
    }
}

/// Two different identifiers are ordered one way or the other.
pub proof fn lemma_id_lt_total(a: Seq<char>, b: Seq<char>)
    requires
        a != b,
    ensures
        id_lt(a, b) || id_lt(b, a),
    decreases a.len(),
{
    if a.len() > 0 && b.len() > 0 {
        if a[0] == b[0] {
            if a.drop_first() == b.drop_first() {
                assert(a =~= b) by {
                    assert(a.drop_first().len() == b.drop_first().len());
                    assert(a.len() == b.len());
                    assert forall|i: int| 0 <= i < a.len() implies a[i] == b[i] by {
                        if i > 0 {
                            assert(a[i] == a.drop_first()[i - 1]);
                            assert(b[i] == b.drop_first()[i - 1]);
                        }
                    }
                }
            } else {
                lemma_id_lt_total(a.drop_first(), b.drop_first());
            }
        } else {
            assert((a[0] as int) != (b[0] as int));
        }
    } else if a.len() == 0 && b.len() == 0 {
        assert(a =~= b);
    }
}

/// The identifiers of `q` are in strictly ascending order.
pub open spec fn ids_ascending(q: Seq<Seq<char>>) -> bool {
    forall|i: int, j: int| 0 <= i < j < q.len() ==> id_lt(#[trigger] q[i], #[trigger] q[j])
}

/// A finite set of identifiers listed in ascending order.
pub open spec fn ascending_ids(s: Set<Seq<char>>) -> Seq<Seq<char>> {
    choose|q: Seq<Seq<char>>| ids_ascending(q) && q.to_set() == s
}

/// Once some ascending list holds the set `s`, `ascending_ids(s)` is it.
pub proof fn sort_witness(s: Set<Seq<char>>, q: Seq<Seq<char>>) -> (r: Seq<Seq<char>>)
    requires
        ids_ascending(q),
        q.to_set() == s,
    ensures
        r == q,
        ascending_ids(s) == q,
        ids_ascending(ascending_ids(s)),
        ascending_ids(s).to_set() == s,
{
    let c = ascending_ids(s);
    assert(ids_ascending(c) && c.to_set() == s);
    lemma_ascending_unique(c, q);
    q
}

/// An ascending list holds no identifier twice.
pub proof fn lemma_ascending_no_duplicates(q: Seq<Seq<char>>)
    requires
        ids_ascending(q),
    ensures
        q.no_duplicates(),
{
    assert forall|i: int, j: int| 0 <= i < q.len() && 0 <= j < q.len() && i != j implies q[i] != q[j] by {
        if i < j {
            assert(id_lt(q[i], q[j]));
        } else {
            assert(id_lt(q[j], q[i]));
        }
        lemma_id_lt_irreflexive(q[i]);
    }
}

/// Only one ascending list holds a given set of identifiers.
pub proof fn lemma_ascending_unique(q1: Seq<Seq<char>>, q2: Seq<Seq<char>>)
    requires
        ids_ascending(q1),
        ids_ascending(q2),
        q1.to_set() == q2.to_set(),
    ensures
        q1 == q2,
    decreases q1.len(),
{
    if q1.len() == 0 {
        if q2.len() > 0 {
            assert(q2.to_set().contains(q2[0]));
        }
        assert(q1 =~= q2);
    } else {
        assert(q1.to_set().contains(q1[0]));
        assert(q2.len() > 0);
        assert(q2.to_set().contains(q2[0]));
        let a = q1[0];
        let b = q2[0];
        if a != b {
            let i = choose|i: int| 0 <= i < q2.len() && q2[i] == a;
            let j = choose|j: int| 0 <= j < q1.len() && q1[j] == b;
            assert(i != 0);
            assert(j != 0);
            assert(id_lt(b, a));
            assert(id_lt(a, b));
            lemma_id_lt_transitive(a, b, a);
            lemma_id_lt_irreflexive(a);
        }
        let r1 = q1.drop_first();
        let r2 = q2.drop_first();
        lemma_ascending_no_duplicates(q1);
        lemma_ascending_no_duplicates(q2);
        assert forall|x: Seq<char>| r1.to_set().contains(x) implies r2.to_set().contains(x) by {
            let i = choose|i: int| 0 <= i < r1.len() && r1[i] == x;
            assert(q1[i + 1] == x);
            assert(q1.to_set().contains(x));
            let j = choose|j: int| 0 <= j < q2.len() && q2[j] == x;
            assert(j != 0);
            assert(r2[j - 1] == x);
        }
        assert forall|x: Seq<char>| r2.to_set().contains(x) implies r1.to_set().contains(x) by {
            let i = choose|i: int| 0 <= i < r2.len() && r2[i] == x;
            assert(q2[i + 1] == x);
            assert(q2.to_set().contains(x));
            let j = choose|j: int| 0 <= j < q1.len() && q1[j] == x;
            assert(j != 0);
            assert(r1[j - 1] == x);
        }
        assert(r1.to_set() =~= r2.to_set());
        lemma_ascending_unique(r1, r2);
        assert forall|i: int| 0 <= i < q1.len() implies q1[i] == q2[i] by {
            if i > 0 {
                assert(q1[i] == r1[i - 1]);
                assert(q2[i] == r2[i - 1]);
            }
        }
        assert(q1 =~= q2);
    }
}

/// A finite non-empty set of identifiers has a least element.
pub proof fn lemma_least_id(s: Set<Seq<char>>) -> (m: Seq<char>)
    requires
        s.finite(),
        s.len() > 0,
    ensures
        s.contains(m),
        forall|x: Seq<char>| #[trigger] s.contains(x) && x != m ==> id_lt(m, x),
    decreases s.len(),
{
    let x = s.choose();
    assert(s.contains(x)) by {
        if !s.contains(x) {
            assert(s =~= Set::empty());
        }
    }
    let r = s.remove(x);
    if r.len() == 0 {
        assert forall|y: Seq<char>| #[trigger] s.contains(y) && y != x implies id_lt(x, y) by {
            assert(r.contains(y));
        }
        x
    } else {
        let m2 = lemma_least_id(r);
        if id_lt(x, m2) {
            assert forall|y: Seq<char>| #[trigger] s.contains(y) && y != x implies id_lt(x, y) by {
                assert(r.contains(y));
                if y != m2 {
                    lemma_id_lt_transitive(x, m2, y);
                }
            }
            x
        } else {
            lemma_id_lt_total(x, m2);
            assert forall|y: Seq<char>| #[trigger] s.contains(y) && y != m2 implies id_lt(m2, y) by {
                if y != x {
                    assert(r.contains(y));
                }
            }
            m2
        }
    }
}

/// Every finite set of identifiers can be listed in ascending order, and
/// `ascending_ids` is that listing.
pub proof fn lemma_ascending_ids(s: Set<Seq<char>>)
    requires
        s.finite(),
    ensures
        ids_ascending(ascending_ids(s)),
        ascending_ids(s).to_set() == s,
{
    let q = ascending_listing(s);
    sort_witness(s, q);
}

/// An ascending listing of a finite set of identifiers.
proof fn ascending_listing(s: Set<Seq<char>>) -> (q: Seq<Seq<char>>)
    requires
        s.finite(),
    ensures
        ids_ascending(q),
        q.to_set() == s,
    decreases s.len(),
{
    if s.len() == 0 {
        assert(s =~= Set::empty());
        assert(Seq::<Seq<char>>::empty().to_set() =~= s);
        Seq::empty()
    } else {
        let m = lemma_least_id(s);
        let r = s.remove(m);
        let t = ascending_listing(r);
        let q = seq![m] + t;
        assert forall|i: int, j: int| 0 <= i < j < q.len() implies id_lt(#[trigger] q[i], #[trigger] q[j]) by {
            if i == 0 {
                assert(q[j] == t[j - 1]);
                assert(t.to_set().contains(t[j - 1]));
                assert(r.contains(q[j]));
            } else {
                assert(q[i] == t[i - 1]);
                assert(q[j] == t[j - 1]);
            }
        }
        assert forall|y: Seq<char>| q.to_set().contains(y) <==> s.contains(y) by {
            if q.to_set().contains(y) {
                let k = choose|k: int| 0 <= k < q.len() && q[k] == y;
                if k > 0 {
                    assert(t[k - 1] == y);
                    assert(t.to_set().contains(y));
                }
            }
            if s.contains(y) {
                if y == m {
                    assert(q[0] == y);
                } else {
                    assert(r.contains(y));
                    assert(t.to_set().contains(y));
                    let k = choose|k: int| 0 <= k < t.len() && t[k] == y;
                    assert(q[k + 1] == y);
                }
            }
        }
        assert(q.to_set() =~= s);
        q
    }
}

/// The characters of a string.
fn chars_of(s: &String) -> (cs: Vec<char>)
    ensures
        cs@ == s@,
{
    let mut out: Vec<char> = Vec::new();
    for c in it: s.as_str().chars()
        invariant
            out@ == it.seq().take(it.index() as int),
    {
        out.push(c);
    }
    out
}

/// Whether `a` sorts strictly before `b`.
pub fn id_less(a: &String, b: &String) -> (r: bool)
    ensures
        r == id_lt(a@, b@),
{
    let x = chars_of(a);
    let y = chars_of(b);
    let mut i: usize = 0;
    proof {
        assert(x@.skip(0) =~= x@);
        assert(y@.skip(0) =~= y@);
    }
    while i < x.len() && i < y.len() && x[i] == y[i]
        invariant
            0 <= i <= x@.len(),
            i <= y@.len(),
            id_lt(a@, b@) == id_lt(x@.skip(i as int), y@.skip(i as int)),
            x@ == a@,
            y@ == b@,
        decreases x@.len() - i,
    {
        proof {
            assert(x@.skip(i + 1) =~= x@.skip(i as int).drop_first());
            assert(y@.skip(i + 1) =~= y@.skip(i as int).drop_first());
        }
        i = i + 1;
    }
    if i == x.len() {
        i < y.len()
    } else if i == y.len() {
        false
    } else {
        x[i] < y[i]
    }
}

/// The given distinct identifiers, in ascending order.
pub fn sort_ids(ids: Vec<String>) -> (q: Vec<String>)
    requires
        string_views(ids@).no_duplicates(),
    ensures
        ids_ascending(string_views(q@)),
        string_views(q@).to_set() == string_views(ids@).to_set(),
        string_views(q@) == ascending_ids(string_views(ids@).to_set()),
{
    let ghost src = string_views(ids@);
    let mut q: Vec<String> = Vec::new();
    proof {
        assert(string_views(q@).to_set() =~= src.take(0).to_set());
    }
    for x in it: ids
        invariant
            src == string_views(it.seq()),
            src.no_duplicates(),
            ids_ascending(string_views(q@)),
            string_views(q@).to_set() == src.take(it.index() as int).to_set(),
    {
        let ghost n = it.index() as int;
        let ghost before = string_views(q@);
        proof {
            assert(src[n] == x@);
            assert(!src.take(n).contains(x@));
            assert(!before.to_set().contains(x@));
            assert(!before.contains(x@)) by {
                if before.contains(x@) {
                    let k = choose|k: int| 0 <= k < before.len() && before[k] == x@;
                    assert(before.to_set().contains(before[k]));
                }
            }
        }
        let mut p: usize = 0;
        while p < q.len() && id_less(&q[p], &x)
            invariant
                0 <= p <= q@.len(),
                before == string_views(q@),
                forall|k: int| 0 <= k < p ==> id_lt(#[trigger] before[k], x@),
            decreases q@.len() - p,
        {
            proof {
                assert(before[p as int] == q@[p as int]@);
            }
            p = p + 1;
        }
        proof {
            if p < q.len() {
                assert(before[p as int] == q@[p as int]@);
                assert(!id_lt(before[p as int], x@));
                assert(before[p as int] != x@);
                lemma_id_lt_total(before[p as int], x@);
                assert forall|k: int| p <= k < before.len() implies id_lt(x@, #[trigger] before[k]) by {
                    if k > p {
                        assert(id_lt(before[p as int], before[k]));
                        lemma_id_lt_transitive(x@, before[p as int], before[k]);
                    }
                }
            }
        }
        q.insert(p, x);
        proof {
            let after = string_views(q@);
            assert(after =~= before.insert(p as int, src[n]));
            assert forall|i: int, j: int| 0 <= i < j < after.len() implies id_lt(#[trigger] after[i], #[trigger] after[j]) by {
                if j < p {
                } else if j == p {
                } else if i < p {
                    assert(after[j] == before[j - 1]);
                    assert(id_lt(x@, before[j - 1]));
                    lemma_id_lt_transitive(after[i], x@, after[j]);
                } else if i == p {
                } else {
                    assert(after[i] == before[i - 1]);
                    assert(after[j] == before[j - 1]);
                }
            }
            assert(src.take(n + 1) =~= src.take(n).push(src[n]));
            src.take(n).lemma_push_to_set_commute(src[n]);
            assert forall|y: Seq<char>| after.to_set().contains(y) <==> before.to_set().insert(src[n]).contains(y) by {
                if after.to_set().contains(y) {
                    let k = choose|k: int| 0 <= k < after.len() && after[k] == y;
                    if k < p {
                        assert(before[k] == y);
                    } else if k > p {
                        assert(before[k - 1] == y);
                    }
                }
                if before.to_set().contains(y) {
                    let k = choose|k: int| 0 <= k < before.len() && before[k] == y;
                    if k < p {
                        assert(after[k] == y);
                    } else {
                        assert(after[k + 1] == y);
                    }
                }
                if y == src[n] {
                    assert(after[p as int] == y);
                }
            }
            assert(after.to_set() =~= before.to_set().insert(src[n]));
        }
    }
    proof {
        assert(src.take(src.len() as int) =~= src);
        let r = string_views(q@);
        let c = ascending_ids(src.to_set());
        assert(ids_ascending(c) && c.to_set() == src.to_set());
        lemma_ascending_unique(r, c);
    }
    q
}

} // verus!
