//! Object ids and the reserved byte strings of the wire protocol.
//!
//! An object id is the textual content hash of a version-control object,
//! held as a byte string (40 lowercase hex characters for every real id).
//! Two byte strings are reserved: the submodule-tip sentinel that stands in
//! for a submodule reference inside the index's object list, and the label
//! under which the serialized index itself is registered on the ledger.

use vstd::prelude::*;

verus! {

/// One reference: a name bound to the id of the object it points at.
#[derive(Clone)]
pub struct RefEntry {
    pub name: Vec<u8>,
    pub target: Vec<u8>,
}

pub struct RefEntryView {
    pub name: Seq<u8>,
    pub target: Seq<u8>,
}

impl View for RefEntry {
    type V = RefEntryView;

    open spec fn view(&self) -> RefEntryView {
        RefEntryView { name: self.name@, target: self.target@ }
    }
}

impl DeepView for RefEntry {
    type V = RefEntryView;

    open spec fn deep_view(&self) -> RefEntryView {
        self.view()
    }
}

/// The sentinel recorded in `RepoData::objects` for a submodule tip.
/// It is 13 bytes long and contains non-hex characters, so it can never
/// collide with a real object id.
pub open spec fn spec_submodule_tip_marker() -> Seq<u8> {
    seq![115u8, 117u8, 98u8, 109u8, 111u8, 100u8, 117u8, 108u8, 101u8, 45u8, 116u8, 105u8, 112u8]
}

/// The byte form of `"submodule-tip"`.
pub fn submodule_tip_marker() -> (r: Vec<u8>)
    ensures
        r@ == spec_submodule_tip_marker(),
{
    let mut v: Vec<u8> = Vec::new();
    v.push(115u8);
    v.push(117u8);
    v.push(98u8);
    v.push(109u8);
    v.push(111u8);
    v.push(100u8);
    v.push(117u8);
    v.push(108u8);
    v.push(101u8);
    v.push(45u8);
    v.push(116u8);
    v.push(105u8);
    v.push(112u8);
    proof {
        assert(v@ =~= spec_submodule_tip_marker());
    }
    v
}

/// The ledger key under which the serialized index is minted.
pub open spec fn spec_index_label() -> Seq<u8> {
    seq![82u8, 101u8, 112u8, 111u8, 68u8, 97u8, 116u8, 97u8]
}

/// The byte form of `"RepoData"`.
pub fn index_label() -> (r: Vec<u8>)
    ensures
        r@ == spec_index_label(),
{
    let mut v: Vec<u8> = Vec::new();
    v.push(82u8);
    v.push(101u8);
    v.push(112u8);
    v.push(111u8);
    v.push(68u8);
    v.push(97u8);
    v.push(116u8);
    v.push(97u8);
    proof {
        assert(v@ =~= spec_index_label());
    }
    v
}

/// Byte-string equality, stated over the views.
pub fn bytes_eq(a: &Vec<u8>, b: &Vec<u8>) -> (r: bool)
    ensures
        r == (a@ == b@),
{
    let r = a == b;
    proof {
        if r {
            assert(a@ =~= b@);
        }
    }
    r
}

/// Whether a list of byte strings contains the given byte string.
pub fn id_list_contains(v: &Vec<Vec<u8>>, x: &Vec<u8>) -> (r: bool)
    ensures
        r == v.deep_view().contains(x@),
{
    let mut i: usize = 0;
    while i < v.len()
        invariant
            0 <= i <= v.len(),
            forall|j: int| 0 <= j < i ==> v.deep_view()[j] != x@,
        decreases v.len() - i,
    {
        assert(v.deep_view()[i as int] == v[i as int]@);
        if bytes_eq(&v[i], x) {
            return true;
        }
        i += 1;
    }
    false
}

/// Lexicographic order on byte strings: `a` is less than or equal to `b`.
pub open spec fn bytes_le(a: Seq<u8>, b: Seq<u8>) -> bool
    decreases a.len(),
{
    if a.len() == 0 {
        true
    } else if b.len() == 0 {
        false
    } else if a[0] < b[0] {
        true
    } else if a[0] > b[0] {
        false
    } else {
        bytes_le(a.drop_first(), b.drop_first())
    }
}

pub proof fn lemma_bytes_le_refl(a: Seq<u8>)
    ensures
        bytes_le(a, a),
    decreases a.len(),
{
    if a.len() > 0 {
        lemma_bytes_le_refl(a.drop_first());
    }
}

pub proof fn lemma_bytes_le_total(a: Seq<u8>, b: Seq<u8>)
    ensures
        bytes_le(a, b) || bytes_le(b, a),
    decreases a.len(),
{
    if a.len() > 0 && b.len() > 0 && a[0] == b[0] {
        lemma_bytes_le_total(a.drop_first(), b.drop_first());
    }
}

pub proof fn lemma_bytes_le_antisym(a: Seq<u8>, b: Seq<u8>)
    requires
        bytes_le(a, b),
        bytes_le(b, a),
    ensures
        a == b,
    decreases a.len(),
{
    if a.len() == 0 {
        assert(b.len() == 0);
        assert(a =~= b);
    } else {
        assert(b.len() > 0);
        assert(a[0] == b[0]);
        lemma_bytes_le_antisym(a.drop_first(), b.drop_first());
        assert(a.drop_first().len() == b.drop_first().len());
        assert(a.len() == b.len());
        assert forall|i: int| 0 <= i < a.len() implies a[i] == b[i] by {
            if i > 0 {
                assert(a[i] == a.drop_first()[i - 1]);
                assert(b[i] == b.drop_first()[i - 1]);
            }
        }
        assert(a =~= b);
    }
}

pub proof fn lemma_bytes_le_trans(a: Seq<u8>, b: Seq<u8>, c: Seq<u8>)
    requires
        bytes_le(a, b),
        bytes_le(b, c),
    ensures
        bytes_le(a, c),
    decreases a.len(),
{
    if a.len() == 0 {
    } else {
        assert(b.len() > 0);
        assert(c.len() > 0);
        if a[0] == b[0] && b[0] == c[0] {
            lemma_bytes_le_trans(a.drop_first(), b.drop_first(), c.drop_first());
        }
    }
}

/// Exec comparison, tied to the `bytes_le` order.
pub fn bytes_le_exec(a: &Vec<u8>, b: &Vec<u8>) -> (r: bool)
    ensures
        r == bytes_le(a@, b@),
{
    let mut i: usize = 0;
    proof {
        assert(a@.skip(0) =~= a@);
        assert(b@.skip(0) =~= b@);
    }
    loop
        invariant
            0 <= i <= a@.len(),
            i <= b@.len(),
            bytes_le(a@, b@) == bytes_le(a@.skip(i as int), b@.skip(i as int)),
        decreases a@.len() - i,
    {
        if i == a.len() {
            assert(a@.skip(i as int).len() == 0);
            return true;
        }
        if i == b.len() {
            assert(b@.skip(i as int).len() == 0);
            assert(a@.skip(i as int).len() > 0);
            return false;
        }
        let x = a[i];
        let y = b[i];
        assert(a@.skip(i as int)[0] == a@[i as int]);
        assert(b@.skip(i as int)[0] == b@[i as int]);
        if x < y {
            return true;
        }
        if x > y {
            return false;
        }
        proof {
            assert(a@.skip(i as int).drop_first() =~= a@.skip(i + 1 as int));
            assert(b@.skip(i as int).drop_first() =~= b@.skip(i + 1 as int));
        }
        i += 1;
    }
}

/// A strictly increasing sequence of byte strings: sorted, with no duplicates.
pub open spec fn strictly_sorted(s: Seq<Seq<u8>>) -> bool {
    forall|i: int, j: int|
        0 <= i < j < s.len() ==> bytes_le(#[trigger] s[i], #[trigger] s[j]) && s[i] != s[j]
}

/// Inserts `x` into a strictly sorted list, keeping it strictly sorted;
/// a duplicate is dropped. This is how the object model realizes sets of
/// ids as canonical sorted sequences.
pub fn insert_sorted_unique(v: &mut Vec<Vec<u8>>, x: &Vec<u8>)
    requires
        strictly_sorted(old(v).deep_view()),
    ensures
        strictly_sorted(final(v).deep_view()),
        forall|y: Seq<u8>|
            final(v).deep_view().contains(y) <==> (old(v).deep_view().contains(y) || y == x@),
{
    let ghost dv = v.deep_view();
    let mut pos: usize = 0;
    let mut found = false;
    while pos < v.len() && !found
        invariant
            0 <= pos <= v.len(),
            v.deep_view() == dv,
            strictly_sorted(dv),
            forall|k: int| 0 <= k < pos ==> !bytes_le(x@, #[trigger] dv[k]),
            found ==> pos < dv.len() && bytes_le(x@, dv[pos as int]),
        decreases v.len() - pos, (if found { 0int } else { 1int }),
    {
        assert(dv[pos as int] == v[pos as int]@);
        if bytes_le_exec(x, &v[pos]) {
            found = true;
        } else {
            pos += 1;
        }
    }
    if found {
        assert(dv[pos as int] == v[pos as int]@);
        if bytes_eq(x, &v[pos]) {
            proof {
                assert(dv.contains(dv[pos as int]));
            }
            return ;
        }
    }
    let xc = copy_bytes(x);
    v.insert(pos, xc);
    proof {
        let dv2 = v.deep_view();
        assert(v@ == v@);
        assert forall|k: int| 0 <= k < dv2.len() implies dv2[k] == (if k < pos {
            dv[k]
        } else if k == pos {
            x@
        } else {
            dv[k - 1]
        }) by {
            assert(dv2[k] == v[k]@);
        }
        // Everything before `pos` is strictly below `x`; everything at or
        // after it in the old list is strictly above `x`.
        assert forall|k: int| 0 <= k < pos implies bytes_le(dv[k], x@) && dv[k] != x@ by {
            lemma_bytes_le_total(x@, dv[k]);
            if dv[k] == x@ {
                lemma_bytes_le_refl(x@);
            }
        }
        assert(dv.len() == v@.len() - 1);
        assert forall|k: int| pos <= k < dv.len() implies bytes_le(x@, dv[k]) && dv[k] != x@ by {
            assert(found);
            assert(x@ != dv[pos as int]);
            if k > pos {
                lemma_bytes_le_trans(x@, dv[pos as int], dv[k]);
                if dv[k] == x@ {
                    lemma_bytes_le_antisym(x@, dv[pos as int]);
                }
            }
        }
        assert forall|i: int, j: int| 0 <= i < j < dv2.len() implies bytes_le(
            #[trigger] dv2[i],
            #[trigger] dv2[j],
        ) && dv2[i] != dv2[j] by {
            if i == pos {
                assert(dv2[j] == dv[j - 1]);
            } else if j == pos {
                assert(dv2[i] == dv[i]);
            } else if i < pos && j > pos {
                lemma_bytes_le_trans(dv[i], x@, dv[j - 1]);
                if dv[i] == dv[j - 1] {
                    lemma_bytes_le_antisym(dv[i], x@);
                }
            }
        }
        assert forall|y: Seq<u8>| dv2.contains(y) <==> (dv.contains(y) || y == x@) by {
            if dv2.contains(y) {
                let k = choose|k: int| 0 <= k < dv2.len() && dv2[k] == y;
                if k < pos {
                    assert(dv[k] == y);
                } else if k > pos {
                    assert(dv[k - 1] == y);
                }
            }
            if dv.contains(y) {
                let k = choose|k: int| 0 <= k < dv.len() && dv[k] == y;
                if k < pos {
                    assert(dv2[k] == y);
                } else {
                    assert(dv2[k + 1] == y);
                }
            }
            if y == x@ {
                assert(dv2[pos as int] == y);
            }
        }
    }
}

/// The reference-name prefix under which lightweight tags live.
pub open spec fn spec_tags_prefix() -> Seq<u8> {
    seq![114u8, 101u8, 102u8, 115u8, 47u8, 116u8, 97u8, 103u8, 115u8]
}

/// The byte form of `"refs/tags"`.
pub fn tags_prefix() -> (r: Vec<u8>)
    ensures
        r@ == spec_tags_prefix(),
{
    let mut v: Vec<u8> = Vec::new();
    v.push(114u8);
    v.push(101u8);
    v.push(102u8);
    v.push(115u8);
    v.push(47u8);
    v.push(116u8);
    v.push(97u8);
    v.push(103u8);
    v.push(115u8);
    proof {
        assert(v@ =~= spec_tags_prefix());
    }
    v
}

/// Whether `v` starts with `prefix`.
pub fn bytes_starts_with(v: &Vec<u8>, prefix: &Vec<u8>) -> (r: bool)
    ensures
        r == (v@.len() >= prefix@.len() && v@.subrange(0, prefix@.len() as int) == prefix@),
{
    if v.len() < prefix.len() {
        return false;
    }
    let mut i: usize = 0;
    while i < prefix.len()
        invariant
            0 <= i <= prefix@.len(),
            prefix@.len() <= v@.len(),
            forall|j: int| 0 <= j < i ==> v@[j] == prefix@[j],
        decreases prefix.len() - i,
    {
        if v[i] != prefix[i] {
            proof {
                assert(v@.subrange(0, prefix@.len() as int)[i as int] != prefix@[i as int]);
            }
            return false;
        }
        i += 1;
    }
    proof {
        assert(v@.subrange(0, prefix@.len() as int) =~= prefix@);
    }
    true
}

/// Pushes a copy of an id onto a list, with the deep view tracked.
pub fn push_id(stack: &mut Vec<Vec<u8>>, id: &Vec<u8>)
    ensures
        final(stack).deep_view() == old(stack).deep_view().push(id@),
{
    stack.push(copy_bytes(id));
    proof {
        assert(stack.deep_view() =~~= old(stack).deep_view().push(id@));
    }
}

/// A copy of a list of byte strings.
pub fn copy_id_list(v: &Vec<Vec<u8>>) -> (r: Vec<Vec<u8>>)
    ensures
        r.deep_view() == v.deep_view(),
{
    let mut r: Vec<Vec<u8>> = Vec::new();
    proof {
        assert(r.deep_view() =~= v.deep_view().subrange(0, 0));
    }
    let mut i: usize = 0;
    while i < v.len()
        invariant
            0 <= i <= v.len(),
            r.deep_view() == v.deep_view().subrange(0, i as int),
        decreases v.len() - i,
    {
        push_id(&mut r, &v[i]);
        proof {
            assert(v.deep_view()[i as int] == v[i as int]@);
            assert(r.deep_view() =~= v.deep_view().subrange(0, i + 1 as int));
        }
        i += 1;
    }
    proof {
        assert(v.deep_view().subrange(0, v.deep_view().len() as int) =~= v.deep_view());
    }
    r
}

/// A copy of a byte string.
pub fn copy_bytes(v: &Vec<u8>) -> (r: Vec<u8>)
    ensures
        r@ == v@,
{
    let mut r: Vec<u8> = Vec::new();
    let mut i: usize = 0;
    while i < v.len()
        invariant
            0 <= i <= v.len(),
            r@ == v@.subrange(0, i as int),
        decreases v.len() - i,
    {
        r.push(v[i]);
        proof {
            assert(r@ =~= v@.subrange(0, i + 1 as int));
        }
        i += 1;
    }
    proof {
        assert(r@ =~= v@);
    }
    r
}

} // verus!
