//! Small helpers over vectors of attribute identities.

use vstd::prelude::*;

verus! {

/// Index of the first occurrence of `x` in `v`, if any.
pub(crate) fn find_id(v: &Vec<u64>, x: u64) -> (r: Option<usize>)
    ensures
        match r {
            Some(i) => i < v@.len() && v@[i as int] == x,
            None => !v@.contains(x),
        },
{
    let mut i: usize = 0;
    while i < v.len()
        invariant
            i <= v@.len(),
            forall|k: int| 0 <= k < i ==> v@[k] != x,
        decreases v@.len() - i,
    {
        if v[i] == x {
            return Some(i);
        }
        i = i + 1;
    }
    None
}

/// Whether `x` occurs in `v`.
pub(crate) fn contains_id(v: &Vec<u64>, x: u64) -> (r: bool)
    ensures
        r == v@.contains(x),
{
    match find_id(v, x) {
        Some(i) => {
            proof {
                assert(v@[i as int] == x);
            }
            true
        },
        None => false,
    }
}

/// Copy of `v`.
pub(crate) fn copy_ids(v: &Vec<u64>) -> (r: Vec<u64>)
    ensures
        r@ == v@,
{
    let mut r: Vec<u64> = Vec::new();
    let mut i: usize = 0;
    while i < v.len()
        invariant
            i <= v@.len(),
            r@ == v@.take(i as int),
        decreases v@.len() - i,
    {
        r.push(v[i]);
        proof {
            assert(r@ =~= v@.take(i as int + 1));
        }
        i = i + 1;
    }
    proof {
        assert(r@ =~= v@);
    }
    r
}

/// Removes the occurrence of `x` from a duplicate-free vector by swapping in
/// the last element; tolerated no-op when `x` is absent.
pub(crate) fn remove_id(v: &mut Vec<u64>, x: u64)
    requires
        old(v)@.no_duplicates(),
    ensures
        final(v)@.no_duplicates(),
        forall|y: u64| final(v)@.contains(y) <==> (old(v)@.contains(y) && y != x),
        final(v)@.len() == if old(v)@.contains(x) {
            old(v)@.len() - 1
        } else {
            old(v)@.len() as int
        },
        !old(v)@.contains(x) ==> final(v)@ == old(v)@,
{
    match find_id(v, x) {
        Some(i) => {
            proof {
                assert(old(v)@.contains(x)) by {
                    assert(old(v)@[i as int] == x);
                }
            }
            v.swap_remove(i);
            proof {
                let s = old(v)@;
                let t = v@;
                let n = s.len() as int;
                assert(t.len() == n - 1);
                assert(forall|k: int|
                    0 <= k < n - 1 ==> t[k] == (if k == i { s[n - 1] } else { s[k] }));
                assert forall|y: u64| t.contains(y) implies (s.contains(y) && y != x) by {
                    let k = choose|k: int| 0 <= k < t.len() && t[k] == y;
                    if k == i {
                        assert(s[n - 1] == y);
                        assert(s.contains(y));
                        assert(i < n - 1);
                        assert(s[i as int] == x);
                        assert(y != x);
                    } else {
                        assert(s[k] == y);
                        assert(s.contains(y));
                        assert(s[i as int] == x);
                        assert(y != x);
                    }
                }
                assert forall|y: u64| s.contains(y) && y != x implies t.contains(y) by {
                    let k = choose|k: int| 0 <= k < s.len() && s[k] == y;
                    assert(k != i);
                    if k < n - 1 {
                        assert(t[k] == y);
                    } else {
                        assert(i < n - 1);
                        assert(t[i as int] == s[n - 1]);
                        assert(t[i as int] == y);
                    }
                }
                assert forall|k: int, l: int|
                    0 <= k < t.len() && 0 <= l < t.len() && k != l implies t[k] != t[l] by {
                    let k2: int = if k == i { n - 1 } else { k };
                    let l2: int = if l == i { n - 1 } else { l };
                    assert(t[k] == s[k2]);
                    assert(t[l] == s[l2]);
                    assert(k2 != l2);
                }
            }
        },
        None => {
        },
    }
}

} // verus!
