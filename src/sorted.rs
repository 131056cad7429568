use vstd::prelude::*;

verus! {

/// Every two positions of `s` hold values in strictly ascending order.
pub open spec fn strictly_ascending(s: Seq<i32>) -> bool {
    forall|i: int, j: int| 0 <= i < j < s.len() ==> s[i] < s[j]
}

/// `s` lists the set `c` in strictly ascending order.
pub open spec fn sorted_listing(s: Seq<i32>, c: Set<i32>) -> bool {
    &&& strictly_ascending(s)
    &&& forall|x: i32| s.contains(x) <==> c.contains(x)
}

/// Two strictly ascending sequences that hold the same values are equal.
pub proof fn lemma_ascending_unique(a: Seq<i32>, b: Seq<i32>)
    requires
        strictly_ascending(a),
        strictly_ascending(b),
        forall|x: i32| a.contains(x) <==> b.contains(x),
    ensures
        a == b,
    decreases a.len(),
{
    if a.len() == 0 {
        if b.len() > 0 {
            assert(b.contains(b[0]));
        }
        assert(a =~= b);
    } else {
        assert(a.contains(a[0]));
        assert(b.len() > 0);
        assert(b.contains(b[0]));
        let j = choose|j: int| 0 <= j < b.len() && b[j] == a[0];
        let k = choose|k: int| 0 <= k < a.len() && a[k] == b[0];
        assert(b[0] <= b[j]);
        assert(a[0] <= a[k]);
        assert(a[0] == b[0]);
        let a1 = a.drop_first();
        let b1 = b.drop_first();
        assert forall|x: i32| a1.contains(x) <==> b1.contains(x) by {
            if a1.contains(x) {
                let i = choose|i: int| 0 <= i < a1.len() && a1[i] == x;
                assert(a[i + 1] == x);
                assert(a.contains(x));
                let m = choose|m: int| 0 <= m < b.len() && b[m] == x;
                assert(m != 0);
                assert(b1[m - 1] == x);
            }
            if b1.contains(x) {
                let i = choose|i: int| 0 <= i < b1.len() && b1[i] == x;
                assert(b[i + 1] == x);
                assert(b.contains(x));
                let m = choose|m: int| 0 <= m < a.len() && a[m] == x;
                assert(m != 0);
                assert(a1[m - 1] == x);
            }
        }
        lemma_ascending_unique(a1, b1);
        assert(a =~= b) by {
            assert forall|i: int| 0 <= i < a.len() implies a[i] == b[i] by {
                if i > 0 {
                    assert(a[i] == a1[i - 1]);
                    assert(b[i] == b1[i - 1]);
                }
            }
        }
    }
}

/// A strictly ascending listing has as many positions as its set has members.
pub proof fn lemma_listing_len(s: Seq<i32>, c: Set<i32>)
    requires
        sorted_listing(s, c),
    ensures
        s.to_set() == c,
        s.len() == c.len(),
{
    assert(s.to_set() =~= c);
    assert(s.no_duplicates()) by {
        assert forall|i: int, j: int| 0 <= i < s.len() && 0 <= j < s.len() && i != j implies s[i]
            != s[j] by {
            if i < j {
                assert(s[i] < s[j]);
            } else {
                assert(s[j] < s[i]);
            }
        }
    }
    s.unique_seq_to_set();
}

/// Where `s` lists `c`, the listing of `c` without `v` is `s` without the
/// position that holds `v`.
pub proof fn lemma_listing_remove(s: Seq<i32>, c: Set<i32>, t: Seq<i32>, v: i32)
    requires
        sorted_listing(s, c),
        sorted_listing(t, c.remove(v)),
        c.contains(v),
    ensures
        exists|i: int| 0 <= i < s.len() && s[i] == v && t == s.remove(i),
{
    assert(s.contains(v));
    let i = choose|i: int| 0 <= i < s.len() && s[i] == v;
    let r = s.remove(i);
    assert(strictly_ascending(r)) by {
        assert forall|p: int, q: int| 0 <= p < q < r.len() implies r[p] < r[q] by {
            let p1 = if p < i { p } else { p + 1 };
            let q1 = if q < i { q } else { q + 1 };
            assert(r[p] == s[p1]);
            assert(r[q] == s[q1]);
        }
    }
    assert forall|x: i32| r.contains(x) <==> t.contains(x) by {
        if r.contains(x) {
            let p = choose|p: int| 0 <= p < r.len() && r[p] == x;
            let p1 = if p < i { p } else { p + 1 };
            assert(s[p1] == x);
            assert(s.contains(x));
            assert(p1 != i);
            assert(x != v) by {
                if p1 < i {
                    assert(s[p1] < s[i]);
                } else {
                    assert(s[i] < s[p1]);
                }
            }
        }
        if t.contains(x) {
            assert(c.contains(x) && x != v);
            assert(s.contains(x));
            let p = choose|p: int| 0 <= p < s.len() && s[p] == x;
            assert(p != i);
            if p < i {
                assert(r[p] == x);
            } else {
                assert(r[p - 1] == x);
            }
        }
    }
    lemma_ascending_unique(r, t);
}

} // verus!
