//! Reference maps: name-to-id bindings with unique names, held as plain
//! entry lists. Both the remote index and the local repository model keep
//! their references this way.

use vstd::prelude::*;

use crate::ids::{bytes_eq, copy_bytes, RefEntry, RefEntryView};

verus! {

/// Names are unique.
pub open spec fn refs_names_unique(s: Seq<RefEntryView>) -> bool {
    forall|i: int, j: int|
        0 <= i < j < s.len() ==> (#[trigger] s[i]).name != (#[trigger] s[j]).name
}

/// A binding for `n` exists.
pub open spec fn refs_has(s: Seq<RefEntryView>, n: Seq<u8>) -> bool {
    exists|i: int| 0 <= i < s.len() && (#[trigger] s[i]).name == n
}

/// The target `n` is bound to (meaningful when `refs_has(s, n)` and names
/// are unique).
pub open spec fn refs_at(s: Seq<RefEntryView>, n: Seq<u8>) -> Seq<u8> {
    let i = choose|i: int| 0 <= i < s.len() && (#[trigger] s[i]).name == n;
    s[i].target
}

/// All bindings other than `name` are kept, unchanged.
pub open spec fn refs_same_except(
    s_old: Seq<RefEntryView>,
    s_new: Seq<RefEntryView>,
    name: Seq<u8>,
) -> bool {
    forall|n: Seq<u8>|
        n != name ==> (refs_has(s_new, n) == refs_has(s_old, n) && (refs_has(s_old, n)
            ==> refs_at(s_new, n) == refs_at(s_old, n)))
}

/// With unique names, the binding at any index with a matching name is the
/// binding the map assigns to that name.
pub proof fn lemma_refs_at_is(s: Seq<RefEntryView>, n: Seq<u8>, k: int)
    requires
        refs_names_unique(s),
        0 <= k < s.len(),
        s[k].name == n,
    ensures
        refs_has(s, n),
        refs_at(s, n) == s[k].target,
{
    assert(refs_has(s, n));
    let k2 = choose|k2: int| 0 <= k2 < s.len() && (#[trigger] s[k2]).name == n;
    if k2 != k {
        assert(s[k2].name == n);
        assert(s[k].name == n);
        assert(false);
    }
}

/// Looks a name up.
pub fn refs_lookup(v: &Vec<RefEntry>, name: &Vec<u8>) -> (r: Option<Vec<u8>>)
    requires
        refs_names_unique(v.deep_view()),
    ensures
        match r {
            Some(t) => refs_has(v.deep_view(), name@) && t@ == refs_at(v.deep_view(), name@),
            None => !refs_has(v.deep_view(), name@),
        },
{
    let ghost s = v.deep_view();
    let mut i: usize = 0;
    while i < v.len()
        invariant
            0 <= i <= v.len(),
            s == v.deep_view(),
            refs_names_unique(s),
            forall|j: int| 0 <= j < i ==> (#[trigger] s[j]).name != name@,
        decreases v.len() - i,
    {
        proof {
            assert(s[i as int] == v[i as int]@);
        }
        if bytes_eq(&v[i].name, name) {
            let t = copy_bytes(&v[i].target);
            proof {
                lemma_refs_at_is(s, name@, i as int);
            }
            return Some(t);
        }
        i += 1;
    }
    None
}

/// Removes the binding for `name`, if one exists. Removing an absent name
/// is a no-op, not an error.
pub fn refs_remove(v: &mut Vec<RefEntry>, name: &Vec<u8>)
    requires
        refs_names_unique(old(v).deep_view()),
    ensures
        refs_names_unique(final(v).deep_view()),
        !refs_has(final(v).deep_view(), name@),
        refs_same_except(old(v).deep_view(), final(v).deep_view(), name@),
{
    let ghost s = v.deep_view();
    let mut i: usize = 0;
    while i < v.len()
        invariant
            0 <= i <= v.len(),
            s == v.deep_view(),
            s == old(v).deep_view(),
            refs_names_unique(s),
            forall|j: int| 0 <= j < i ==> (#[trigger] s[j]).name != name@,
        decreases v.len() - i,
    {
        proof {
            assert(s[i as int] == v[i as int]@);
        }
        if bytes_eq(&v[i].name, name) {
            let ghost ig = i as int;
            v.remove(i);
            proof {
                let s2 = v.deep_view();
                assert(s[ig].name == name@);
                assert forall|k: int| 0 <= k < s2.len() implies s2[k] == (if k < ig {
                    s[k]
                } else {
                    s[k + 1]
                }) by {
                    assert(s2[k] == v[k]@);
                }
                assert forall|a: int, b: int| 0 <= a < b < s2.len() implies (
                #[trigger] s2[a]).name != (#[trigger] s2[b]).name by {
                    let a2: int = if a < ig {
                        a
                    } else {
                        a + 1
                    };
                    let b2: int = if b < ig {
                        b
                    } else {
                        b + 1
                    };
                    assert(s2[a] == s[a2]);
                    assert(s2[b] == s[b2]);
                    assert(s[a2].name != s[b2].name);
                }
                assert forall|n: Seq<u8>| refs_has(s2, n) implies n != name@ by {
                    let k = choose|k: int| 0 <= k < s2.len() && (#[trigger] s2[k]).name == n;
                    let k2: int = if k < ig {
                        k
                    } else {
                        k + 1
                    };
                    assert(s[k2].name == n);
                    if n == name@ {
                        assert(s[ig].name == s[k2].name);
                        assert(false);
                    }
                }
                assert forall|n: Seq<u8>| n != name@ implies (refs_has(s2, n) == refs_has(s, n) && (
                refs_has(s, n) ==> refs_at(s2, n) == refs_at(s, n))) by {
                    if refs_has(s, n) {
                        let k = choose|k: int| 0 <= k < s.len() && (#[trigger] s[k]).name == n;
                        assert(k != ig);
                        let k2: int = if k < ig {
                            k
                        } else {
                            k - 1
                        };
                        assert(s2[k2] == s[k]);
                        lemma_refs_at_is(s2, n, k2);
                        lemma_refs_at_is(s, n, k);
                    }
                    if refs_has(s2, n) {
                        let k = choose|k: int| 0 <= k < s2.len() && (#[trigger] s2[k]).name == n;
                        let k2: int = if k < ig {
                            k
                        } else {
                            k + 1
                        };
                        assert(s[k2].name == n);
                        assert(refs_has(s, n));
                    }
                }
                assert(refs_same_except(s, s2, name@));
            }
            return ;
        }
        i += 1;
    }
    proof {
        assert(refs_same_except(v.deep_view(), v.deep_view(), name@));
    }
}

/// Binds `name` to `target`, replacing any existing binding.
pub fn refs_set(v: &mut Vec<RefEntry>, name: &Vec<u8>, target: &Vec<u8>)
    requires
        refs_names_unique(old(v).deep_view()),
    ensures
        refs_names_unique(final(v).deep_view()),
        refs_has(final(v).deep_view(), name@),
        refs_at(final(v).deep_view(), name@) == target@,
        refs_same_except(old(v).deep_view(), final(v).deep_view(), name@),
{
    refs_remove(v, name);
    let ghost mid = v.deep_view();
    let entry = RefEntry { name: copy_bytes(name), target: copy_bytes(target) };
    v.push(entry);
    proof {
        let s2 = v.deep_view();
        assert forall|k: int| 0 <= k < s2.len() implies s2[k] == (if k < mid.len() {
            mid[k]
        } else {
            RefEntryView { name: name@, target: target@ }
        }) by {
            assert(s2[k] == v[k]@);
        }
        let last = s2.len() - 1;
        assert(s2[last].name == name@);
        assert forall|a: int, b: int| 0 <= a < b < s2.len() implies (#[trigger] s2[a]).name != (
        #[trigger] s2[b]).name by {
            if b == last {
                assert(s2[a] == mid[a]);
                if mid[a].name == name@ {
                    assert(refs_has(mid, name@));
                    assert(false);
                }
            } else {
                assert(s2[a] == mid[a]);
                assert(s2[b] == mid[b]);
                assert(mid[a].name != mid[b].name);
            }
        }
        lemma_refs_at_is(s2, name@, last);
        assert forall|n: Seq<u8>| n != name@ implies (refs_has(s2, n) == refs_has(mid, n) && (
        refs_has(mid, n) ==> refs_at(s2, n) == refs_at(mid, n))) by {
            if refs_has(mid, n) {
                let k = choose|k: int| 0 <= k < mid.len() && (#[trigger] mid[k]).name == n;
                assert(s2[k] == mid[k]);
                lemma_refs_at_is(s2, n, k);
                lemma_refs_at_is(mid, n, k);
            }
            if refs_has(s2, n) {
                let k = choose|k: int| 0 <= k < s2.len() && (#[trigger] s2[k]).name == n;
                assert(k != last);
                assert(mid[k].name == n);
                assert(refs_has(mid, n));
            }
        }
        assert(refs_same_except(mid, s2, name@));
        assert(refs_same_except(old(v).deep_view(), s2, name@));
    }
}

} // verus!
