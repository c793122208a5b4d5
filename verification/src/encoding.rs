//! The canonical, versionless binary transport encoding of `GitObject` and
//! `RepoData`: every byte string is length-prefixed (64-bit little-endian),
//! lists are count-prefixed, and the metadata variant is a single tag byte.
//! `spec_encode_git_object` and `spec_encode_repo_data` are the format's
//! definition; the encoder produces exactly that byte sequence, and the
//! decoder accepts a byte sequence only if it is exactly the encoding of the
//! value it returns.

use vstd::prelude::*;

use crate::errors::RepoError;
use crate::ids::{RefEntry, RefEntryView};
use crate::objects::{GitObject, GitObjectMetadata, GitObjectMetadataView, GitObjectView};
use crate::repo_data::RepoData;

verus! {

/// Eight little-endian bytes.
pub open spec fn le64(n: u64) -> Seq<u8> {
    seq![
        (n & 0xff) as u8,
        ((n >> 8) & 0xff) as u8,
        ((n >> 16) & 0xff) as u8,
        ((n >> 24) & 0xff) as u8,
        ((n >> 32) & 0xff) as u8,
        ((n >> 40) & 0xff) as u8,
        ((n >> 48) & 0xff) as u8,
        ((n >> 56) & 0xff) as u8,
    ]
}

/// A length-prefixed byte string.
pub open spec fn enc_bytes(b: Seq<u8>) -> Seq<u8> {
    le64(b.len() as u64) + b
}

/// The bodies of a list of byte strings, in order.
pub open spec fn enc_id_items(s: Seq<Seq<u8>>) -> Seq<u8>
    decreases s.len(),
{
    if s.len() == 0 {
        Seq::empty()
    } else {
        enc_id_items(s.drop_last()) + enc_bytes(s.last())
    }
}

/// A count-prefixed list of byte strings.
pub open spec fn enc_id_list(s: Seq<Seq<u8>>) -> Seq<u8> {
    le64(s.len() as u64) + enc_id_items(s)
}

/// The bodies of a reference list: name and target, both length-prefixed.
pub open spec fn enc_ref_items(s: Seq<RefEntryView>) -> Seq<u8>
    decreases s.len(),
{
    if s.len() == 0 {
        Seq::empty()
    } else {
        enc_ref_items(s.drop_last()) + enc_bytes(s.last().name) + enc_bytes(s.last().target)
    }
}

/// The metadata: one tag byte, then the variant's fields.
pub open spec fn enc_metadata(m: GitObjectMetadataView) -> Seq<u8> {
    match m {
        GitObjectMetadataView::Commit { parent_git_hashes, tree_git_hash } => seq![0u8]
            + enc_id_list(parent_git_hashes) + enc_bytes(tree_git_hash),
        GitObjectMetadataView::Tag { target_git_hash } => seq![1u8] + enc_bytes(target_git_hash),
        GitObjectMetadataView::Tree { entry_git_hashes } => seq![2u8] + enc_id_list(
            entry_git_hashes,
        ),
        GitObjectMetadataView::Blob => seq![3u8],
    }
}

/// The transport form of one object.
pub open spec fn spec_encode_git_object(g: GitObjectView) -> Seq<u8> {
    enc_bytes(g.git_hash) + enc_bytes(g.raw_data) + enc_metadata(g.metadata)
}

/// The transport form of the index.
pub open spec fn spec_encode_repo_data(refs: Seq<RefEntryView>, objects: Seq<Seq<u8>>) -> Seq<u8> {
    le64(refs.len() as u64) + enc_ref_items(refs) + enc_id_list(objects)
}

proof fn lemma_le64_inj(a: u64, b: u64)
    requires
        le64(a) == le64(b),
    ensures
        a == b,
{
    assert(le64(a)[0] == le64(b)[0] && le64(a)[1] == le64(b)[1] && le64(a)[2] == le64(b)[2]
        && le64(a)[3] == le64(b)[3] && le64(a)[4] == le64(b)[4] && le64(a)[5] == le64(b)[5]
        && le64(a)[6] == le64(b)[6] && le64(a)[7] == le64(b)[7]);
    assert(((a & 0xff) as u8 == (b & 0xff) as u8 && ((a >> 8) & 0xff) as u8 == ((b >> 8)
        & 0xff) as u8 && ((a >> 16) & 0xff) as u8 == ((b >> 16) & 0xff) as u8 && ((a >> 24)
        & 0xff) as u8 == ((b >> 24) & 0xff) as u8 && ((a >> 32) & 0xff) as u8 == ((b >> 32)
        & 0xff) as u8 && ((a >> 40) & 0xff) as u8 == ((b >> 40) & 0xff) as u8 && ((a >> 48)
        & 0xff) as u8 == ((b >> 48) & 0xff) as u8 && ((a >> 56) & 0xff) as u8 == ((b >> 56)
        & 0xff) as u8) ==> a == b) by (bit_vector);
}

/// A segment known to hold a concatenation splits into its two parts.
proof fn lemma_concat_extract(s: Seq<u8>, pos: int, x: Seq<u8>, y: Seq<u8>)
    requires
        0 <= pos,
        pos + x.len() + y.len() <= s.len(),
        s.subrange(pos, pos + x.len() + y.len()) == x + y,
    ensures
        s.subrange(pos, pos + x.len() as int) == x,
        s.subrange(pos + x.len(), pos + x.len() + y.len()) == y,
{
    assert forall|i: int| 0 <= i < x.len() implies s.subrange(pos, pos + x.len() as int)[i]
        == x[i] by {
        assert((x + y)[i] == s.subrange(pos, pos + x.len() + y.len())[i]);
    }
    assert(s.subrange(pos, pos + x.len() as int) =~= x);
    assert forall|i: int| 0 <= i < y.len() implies s.subrange(
        pos + x.len(),
        pos + x.len() + y.len(),
    )[i] == y[i] by {
        assert((x + y)[x.len() + i] == y[i]);
        assert(s.subrange(pos, pos + x.len() + y.len())[x.len() + i] == s[pos + x.len() + i]);
        assert((x + y)[x.len() + i] == s.subrange(pos, pos + x.len() + y.len())[x.len() + i]);
        assert(s.subrange(pos + x.len(), pos + x.len() + y.len())[i] == s[pos + x.len() + i]);
    }
    assert(s.subrange(pos + x.len(), pos + x.len() + y.len()) =~= y);
}

/// A length-prefixed read spans exactly the prefix plus the body.
proof fn lemma_read_len(b: Seq<u8>, pos: int, p: int, v: Seq<u8>)
    requires
        0 <= pos <= p <= b.len(),
        b.subrange(pos, p) == enc_bytes(v),
    ensures
        p == pos + 8 + v.len(),
{
    assert(enc_bytes(v).len() == 8 + v.len());
    assert(b.subrange(pos, p).len() == enc_bytes(v).len());
}

/// Only one byte string can be read as a length-prefixed string at a given
/// position: the prefix fixes the length, the length fixes the body.
proof fn lemma_enc_bytes_at(s: Seq<u8>, pos: int, v: Seq<u8>, w: Seq<u8>)
    requires
        0 <= pos,
        s.len() <= u64::MAX,
        pos + 8 + v.len() <= s.len(),
        pos + 8 + w.len() <= s.len(),
        s.subrange(pos, pos + 8 + v.len()) == enc_bytes(v),
        s.subrange(pos, pos + 8 + w.len()) == enc_bytes(w),
    ensures
        v == w,
{
    lemma_concat_extract(s, pos, le64(v.len() as u64), v);
    lemma_concat_extract(s, pos, le64(w.len() as u64), w);
    lemma_le64_inj(v.len() as u64, w.len() as u64);
    assert(v.len() <= u64::MAX && w.len() <= u64::MAX);
    assert(v.len() == w.len());
    assert(v =~= w);
}

proof fn lemma_enc_id_items_first(s: Seq<Seq<u8>>)
    requires
        s.len() > 0,
    ensures
        enc_id_items(s) == enc_bytes(s[0]) + enc_id_items(s.subrange(1, s.len() as int)),
    decreases s.len(),
{
    let tail = s.subrange(1, s.len() as int);
    if s.len() == 1 {
        assert(s.drop_last() =~= Seq::<Seq<u8>>::empty());
        assert(tail =~= Seq::<Seq<u8>>::empty());
        assert(s.last() == s[0]);
        assert(enc_id_items(s) =~= enc_bytes(s[0]) + enc_id_items(tail));
    } else {
        let d = s.drop_last();
        lemma_enc_id_items_first(d);
        assert(tail.drop_last() =~= d.subrange(1, d.len() as int));
        assert(tail.last() == s.last());
        assert(tail.len() > 0);
        assert(d[0] == s[0]);
        assert(enc_id_items(tail) == enc_id_items(tail.drop_last()) + enc_bytes(tail.last()));
        assert(enc_id_items(s) =~= enc_bytes(s[0]) + enc_id_items(tail));
    }
}

proof fn lemma_enc_id_items_len(s: Seq<Seq<u8>>)
    ensures
        enc_id_items(s).len() >= 8 * s.len(),
    decreases s.len(),
{
    if s.len() > 0 {
        lemma_enc_id_items_len(s.drop_last());
    }
}

proof fn lemma_enc_id_items_split(s: Seq<Seq<u8>>, i: int)
    requires
        0 <= i <= s.len(),
    ensures
        enc_id_items(s) == enc_id_items(s.subrange(0, i)) + enc_id_items(
            s.subrange(i, s.len() as int),
        ),
    decreases s.len(),
{
    if i == s.len() {
        assert(s.subrange(0, i) =~= s);
        assert(s.subrange(i, s.len() as int) =~= Seq::<Seq<u8>>::empty());
        assert(enc_id_items(s) =~= enc_id_items(s.subrange(0, i)) + enc_id_items(
            s.subrange(i, s.len() as int),
        ));
    } else {
        let d = s.drop_last();
        lemma_enc_id_items_split(d, i);
        let tail = s.subrange(i, s.len() as int);
        assert(d.subrange(0, i) =~= s.subrange(0, i));
        assert(tail.drop_last() =~= d.subrange(i, d.len() as int));
        assert(tail.last() == s.last());
        assert(tail.len() > 0);
        assert(enc_id_items(tail) == enc_id_items(tail.drop_last()) + enc_bytes(tail.last()));
        assert(enc_id_items(s) =~= enc_id_items(s.subrange(0, i)) + enc_id_items(tail));
    }
}

/// Two item runs read at the same position agree on their common prefix.
proof fn lemma_enc_id_items_prefix(s: Seq<u8>, pos: int, u: Seq<Seq<u8>>, w: Seq<Seq<u8>>)
    requires
        0 <= pos,
        s.len() <= u64::MAX,
        u.len() <= w.len(),
        pos + enc_id_items(u).len() <= s.len(),
        pos + enc_id_items(w).len() <= s.len(),
        s.subrange(pos, pos + enc_id_items(u).len()) == enc_id_items(u),
        s.subrange(pos, pos + enc_id_items(w).len()) == enc_id_items(w),
    ensures
        u == w.subrange(0, u.len() as int),
        enc_id_items(u).len() <= enc_id_items(w).len(),
    decreases u.len(),
{
    if u.len() == 0 {
        assert(u =~= w.subrange(0, 0));
    } else {
        lemma_enc_id_items_first(u);
        lemma_enc_id_items_first(w);
        let u1 = u.subrange(1, u.len() as int);
        let w1 = w.subrange(1, w.len() as int);
        assert(enc_bytes(u[0]) + enc_id_items(u1) == enc_id_items(u));
        assert(enc_bytes(w[0]) + enc_id_items(w1) == enc_id_items(w));
        lemma_concat_extract(s, pos, enc_bytes(u[0]), enc_id_items(u1));
        lemma_concat_extract(s, pos, enc_bytes(w[0]), enc_id_items(w1));
        lemma_enc_bytes_at(s, pos, u[0], w[0]);
        let d = 8 + u[0].len();
        lemma_enc_id_items_prefix(s, pos + d, u1, w1);
        assert forall|j: int| 0 <= j < u.len() implies u[j] == w.subrange(0, u.len() as int)[j] by {
            if j > 0 {
                assert(u1[j - 1] == w1.subrange(0, u1.len() as int)[j - 1]);
            }
        }
        assert(u =~= w.subrange(0, u.len() as int));
    }
}

/// Only one id list can be read at a given position.
proof fn lemma_enc_id_list_at(s: Seq<u8>, pos: int, u: Seq<Seq<u8>>, w: Seq<Seq<u8>>)
    requires
        0 <= pos,
        s.len() <= u64::MAX,
        pos + enc_id_list(u).len() <= s.len(),
        pos + enc_id_list(w).len() <= s.len(),
        s.subrange(pos, pos + enc_id_list(u).len()) == enc_id_list(u),
        s.subrange(pos, pos + enc_id_list(w).len()) == enc_id_list(w),
    ensures
        u == w,
        enc_id_list(u).len() == enc_id_list(w).len(),
{
    lemma_concat_extract(s, pos, le64(u.len() as u64), enc_id_items(u));
    lemma_concat_extract(s, pos, le64(w.len() as u64), enc_id_items(w));
    lemma_le64_inj(u.len() as u64, w.len() as u64);
    lemma_enc_id_items_len(u);
    lemma_enc_id_items_len(w);
    assert(u.len() <= u64::MAX && w.len() <= u64::MAX);
    assert(u.len() == w.len());
    lemma_enc_id_items_prefix(s, pos + 8, u, w);
    assert(w.subrange(0, w.len() as int) =~= w);
}

proof fn lemma_enc_ref_items_first(s: Seq<RefEntryView>)
    requires
        s.len() > 0,
    ensures
        enc_ref_items(s) == enc_bytes(s[0].name) + (enc_bytes(s[0].target) + enc_ref_items(
            s.subrange(1, s.len() as int),
        )),
    decreases s.len(),
{
    let tail = s.subrange(1, s.len() as int);
    if s.len() == 1 {
        assert(s.drop_last() =~= Seq::<RefEntryView>::empty());
        assert(tail =~= Seq::<RefEntryView>::empty());
        assert(s.last() == s[0]);
        assert(enc_ref_items(s) =~= enc_bytes(s[0].name) + (enc_bytes(s[0].target)
            + enc_ref_items(tail)));
    } else {
        let d = s.drop_last();
        lemma_enc_ref_items_first(d);
        assert(tail.drop_last() =~= d.subrange(1, d.len() as int));
        assert(tail.last() == s.last());
        assert(tail.len() > 0);
        assert(d[0] == s[0]);
        assert(enc_ref_items(tail) == enc_ref_items(tail.drop_last()) + enc_bytes(tail.last().name)
            + enc_bytes(tail.last().target));
        assert(enc_ref_items(s) =~= enc_bytes(s[0].name) + (enc_bytes(s[0].target)
            + enc_ref_items(tail)));
    }
}

proof fn lemma_enc_ref_items_len(s: Seq<RefEntryView>)
    ensures
        enc_ref_items(s).len() >= 16 * s.len(),
    decreases s.len(),
{
    if s.len() > 0 {
        lemma_enc_ref_items_len(s.drop_last());
    }
}

/// Two reference runs read at the same position agree on their common
/// prefix.
proof fn lemma_enc_ref_items_prefix(s: Seq<u8>, pos: int, u: Seq<RefEntryView>, w: Seq<RefEntryView>)
    requires
        0 <= pos,
        s.len() <= u64::MAX,
        u.len() <= w.len(),
        pos + enc_ref_items(u).len() <= s.len(),
        pos + enc_ref_items(w).len() <= s.len(),
        s.subrange(pos, pos + enc_ref_items(u).len()) == enc_ref_items(u),
        s.subrange(pos, pos + enc_ref_items(w).len()) == enc_ref_items(w),
    ensures
        u == w.subrange(0, u.len() as int),
        enc_ref_items(u).len() <= enc_ref_items(w).len(),
    decreases u.len(),
{
    if u.len() == 0 {
        assert(u =~= w.subrange(0, 0));
    } else {
        lemma_enc_ref_items_first(u);
        lemma_enc_ref_items_first(w);
        let u1 = u.subrange(1, u.len() as int);
        let w1 = w.subrange(1, w.len() as int);
        lemma_concat_extract(
            s,
            pos,
            enc_bytes(u[0].name),
            enc_bytes(u[0].target) + enc_ref_items(u1),
        );
        lemma_concat_extract(
            s,
            pos,
            enc_bytes(w[0].name),
            enc_bytes(w[0].target) + enc_ref_items(w1),
        );
        lemma_enc_bytes_at(s, pos, u[0].name, w[0].name);
        let dn = 8 + u[0].name.len();
        lemma_concat_extract(s, pos + dn, enc_bytes(u[0].target), enc_ref_items(u1));
        lemma_concat_extract(s, pos + dn, enc_bytes(w[0].target), enc_ref_items(w1));
        lemma_enc_bytes_at(s, pos + dn, u[0].target, w[0].target);
        assert(u[0] == w[0]);
        let d = dn + 8 + u[0].target.len();
        lemma_enc_ref_items_prefix(s, pos + d, u1, w1);
        assert forall|j: int| 0 <= j < u.len() implies u[j] == w.subrange(0, u.len() as int)[j] by {
            if j > 0 {
                assert(u1[j - 1] == w1.subrange(0, u1.len() as int)[j - 1]);
            }
        }
        assert(u =~= w.subrange(0, u.len() as int));
    }
}

proof fn lemma_enc_ref_items_split(s: Seq<RefEntryView>, i: int)
    requires
        0 <= i <= s.len(),
    ensures
        enc_ref_items(s) == enc_ref_items(s.subrange(0, i)) + enc_ref_items(
            s.subrange(i, s.len() as int),
        ),
    decreases s.len(),
{
    if i == s.len() {
        assert(s.subrange(0, i) =~= s);
        assert(s.subrange(i, s.len() as int) =~= Seq::<RefEntryView>::empty());
        assert(enc_ref_items(s) =~= enc_ref_items(s.subrange(0, i)) + enc_ref_items(
            s.subrange(i, s.len() as int),
        ));
    } else {
        let d = s.drop_last();
        lemma_enc_ref_items_split(d, i);
        let tail = s.subrange(i, s.len() as int);
        assert(d.subrange(0, i) =~= s.subrange(0, i));
        assert(tail.drop_last() =~= d.subrange(i, d.len() as int));
        assert(tail.last() == s.last());
        assert(tail.len() > 0);
        assert(enc_ref_items(tail) == enc_ref_items(tail.drop_last()) + enc_bytes(tail.last().name)
            + enc_bytes(tail.last().target));
        assert(enc_ref_items(s) =~= enc_ref_items(s.subrange(0, i)) + enc_ref_items(tail));
    }
}

proof fn lemma_enc_metadata_shape(m: GitObjectMetadataView)
    ensures
        enc_metadata(m).len() >= 1,
        enc_metadata(m)[0] == (match m {
            GitObjectMetadataView::Commit { .. } => 0u8,
            GitObjectMetadataView::Tag { .. } => 1u8,
            GitObjectMetadataView::Tree { .. } => 2u8,
            GitObjectMetadataView::Blob => 3u8,
        }),
{
    match m {
        GitObjectMetadataView::Commit { parent_git_hashes, tree_git_hash } => {
            assert(enc_metadata(m)[0] == 0u8);
        },
        GitObjectMetadataView::Tag { target_git_hash } => {
            assert(enc_metadata(m)[0] == 1u8);
        },
        GitObjectMetadataView::Tree { entry_git_hashes } => {
            assert(enc_metadata(m)[0] == 2u8);
        },
        GitObjectMetadataView::Blob => {
            assert(enc_metadata(m)[0] == 3u8);
        },
    }
}

/// The three segments of one object's canonical encoding, with their
/// positions.
proof fn lemma_git_encoding_segments(b: Seq<u8>, g: GitObjectView)
    requires
        b == spec_encode_git_object(g),
        b.len() <= u64::MAX,
    ensures
        b.len() == 16 + g.git_hash.len() + g.raw_data.len() + enc_metadata(g.metadata).len(),
        b.subrange(0, 8 + g.git_hash.len() as int) == enc_bytes(g.git_hash),
        b.subrange(8 + g.git_hash.len() as int, 16 + g.git_hash.len() + g.raw_data.len() as int) == enc_bytes(
            g.raw_data,
        ),
        b.subrange(16 + g.git_hash.len() + g.raw_data.len() as int, b.len() as int) == enc_metadata(
            g.metadata,
        ),
        enc_metadata(g.metadata).len() >= 1,
{
    lemma_enc_metadata_shape(g.metadata);
    assert(b =~= enc_bytes(g.git_hash) + (enc_bytes(g.raw_data) + enc_metadata(g.metadata)));
    assert(b.subrange(0, b.len() as int) =~= b);
    lemma_concat_extract(
        b,
        0,
        enc_bytes(g.git_hash),
        enc_bytes(g.raw_data) + enc_metadata(g.metadata),
    );
    lemma_concat_extract(b, 8 + g.git_hash.len() as int, enc_bytes(g.raw_data), enc_metadata(g.metadata));
}

/// The segments of the index's canonical encoding.
proof fn lemma_repo_encoding_segments(b: Seq<u8>, refs: Seq<RefEntryView>, objects: Seq<Seq<u8>>)
    requires
        b == spec_encode_repo_data(refs, objects),
        b.len() <= u64::MAX,
    ensures
        b.len() == 8 + enc_ref_items(refs).len() + enc_id_list(objects).len(),
        b.subrange(0, 8) == le64(refs.len() as u64),
        b.subrange(8, 8 + enc_ref_items(refs).len() as int) == enc_ref_items(refs),
        b.subrange(8 + enc_ref_items(refs).len() as int, b.len() as int) == enc_id_list(objects),
{
    assert(b =~= le64(refs.len() as u64) + (enc_ref_items(refs) + enc_id_list(objects)));
    assert(b.subrange(0, b.len() as int) =~= b);
    lemma_concat_extract(b, 0, le64(refs.len() as u64), enc_ref_items(refs) + enc_id_list(objects));
    lemma_concat_extract(b, 8, enc_ref_items(refs), enc_id_list(objects));
}

/// Law: the canonical object encoding is injective — equal encodings come
/// from equal objects, which with the decoder's exactness gives the round
/// trip `decode(encode(g)) == g`.
pub proof fn lemma_encode_git_object_injective(g1: GitObjectView, g2: GitObjectView)
    requires
        spec_encode_git_object(g1) == spec_encode_git_object(g2),
        spec_encode_git_object(g1).len() <= u64::MAX,
    ensures
        g1 == g2,
{
    let b = spec_encode_git_object(g1);
    lemma_git_encoding_segments(b, g1);
    lemma_git_encoding_segments(b, g2);
    lemma_enc_bytes_at(b, 0, g1.git_hash, g2.git_hash);
    let p1 = 8 + g1.git_hash.len() as int;
    lemma_enc_bytes_at(b, p1, g1.raw_data, g2.raw_data);
    let p2 = p1 + 8 + g1.raw_data.len() as int;
    let m1 = g1.metadata;
    let m2 = g2.metadata;
    assert(enc_metadata(m1) == enc_metadata(m2));
    lemma_enc_metadata_shape(m1);
    lemma_enc_metadata_shape(m2);
    assert(enc_metadata(m1)[0] == enc_metadata(m2)[0]);
    let p3 = p2 + 1;
    match m1 {
        GitObjectMetadataView::Commit { parent_git_hashes: ps1, tree_git_hash: th1 } => {
            let ps2 = m2->Commit_parent_git_hashes;
            let th2 = m2->Commit_tree_git_hash;
            assert(enc_metadata(m1) =~= seq![0u8] + (enc_id_list(ps1) + enc_bytes(th1)));
            assert(enc_metadata(m2) =~= seq![0u8] + (enc_id_list(ps2) + enc_bytes(th2)));
            lemma_concat_extract(b, p2, seq![0u8], enc_id_list(ps1) + enc_bytes(th1));
            lemma_concat_extract(b, p2, seq![0u8], enc_id_list(ps2) + enc_bytes(th2));
            lemma_concat_extract(b, p3, enc_id_list(ps1), enc_bytes(th1));
            lemma_concat_extract(b, p3, enc_id_list(ps2), enc_bytes(th2));
            lemma_enc_id_list_at(b, p3, ps1, ps2);
            lemma_enc_bytes_at(b, p3 + enc_id_list(ps1).len(), th1, th2);
            assert(m1 == m2);
        },
        GitObjectMetadataView::Tag { target_git_hash: th1 } => {
            let th2 = m2->Tag_target_git_hash;
            assert(enc_metadata(m1) =~= seq![1u8] + enc_bytes(th1));
            assert(enc_metadata(m2) =~= seq![1u8] + enc_bytes(th2));
            lemma_concat_extract(b, p2, seq![1u8], enc_bytes(th1));
            lemma_concat_extract(b, p2, seq![1u8], enc_bytes(th2));
            lemma_enc_bytes_at(b, p3, th1, th2);
            assert(m1 == m2);
        },
        GitObjectMetadataView::Tree { entry_git_hashes: es1 } => {
            let es2 = m2->Tree_entry_git_hashes;
            assert(enc_metadata(m1) =~= seq![2u8] + enc_id_list(es1));
            assert(enc_metadata(m2) =~= seq![2u8] + enc_id_list(es2));
            lemma_concat_extract(b, p2, seq![2u8], enc_id_list(es1));
            lemma_concat_extract(b, p2, seq![2u8], enc_id_list(es2));
            lemma_enc_id_list_at(b, p3, es1, es2);
            assert(m1 == m2);
        },
        GitObjectMetadataView::Blob => {
            assert(m2 is Blob);
            assert(m1 == m2);
        },
    }
}

/// Law: the canonical index encoding is injective over the reference list
/// and the object list.
pub proof fn lemma_encode_repo_data_injective(
    refs1: Seq<RefEntryView>,
    objects1: Seq<Seq<u8>>,
    refs2: Seq<RefEntryView>,
    objects2: Seq<Seq<u8>>,
)
    requires
        spec_encode_repo_data(refs1, objects1) == spec_encode_repo_data(refs2, objects2),
        spec_encode_repo_data(refs1, objects1).len() <= u64::MAX,
    ensures
        refs1 == refs2,
        objects1 == objects2,
{
    let b = spec_encode_repo_data(refs1, objects1);
    lemma_repo_encoding_segments(b, refs1, objects1);
    lemma_repo_encoding_segments(b, refs2, objects2);
    lemma_le64_inj(refs1.len() as u64, refs2.len() as u64);
    lemma_enc_ref_items_len(refs1);
    lemma_enc_ref_items_len(refs2);
    assert(refs1.len() <= u64::MAX && refs2.len() <= u64::MAX);
    assert(refs1.len() == refs2.len());
    lemma_enc_ref_items_prefix(b, 8, refs1, refs2);
    assert(refs2.subrange(0, refs2.len() as int) =~= refs2);
    lemma_enc_id_list_at(b, 8 + enc_ref_items(refs1).len() as int, objects1, objects2);
}

fn push_le64(out: &mut Vec<u8>, n: u64)
    ensures
        final(out)@ == old(out)@ + le64(n),
{
    out.push((n & 0xff) as u8);
    out.push(((n >> 8) & 0xff) as u8);
    out.push(((n >> 16) & 0xff) as u8);
    out.push(((n >> 24) & 0xff) as u8);
    out.push(((n >> 32) & 0xff) as u8);
    out.push(((n >> 40) & 0xff) as u8);
    out.push(((n >> 48) & 0xff) as u8);
    out.push(((n >> 56) & 0xff) as u8);
    proof {
        assert(out@ =~= old(out)@ + le64(n));
    }
}

fn push_bytes(out: &mut Vec<u8>, b: &Vec<u8>)
    ensures
        final(out)@ == old(out)@ + enc_bytes(b@),
{
    push_le64(out, b.len() as u64);
    let ghost mid = out@;
    let mut i: usize = 0;
    while i < b.len()
        invariant
            0 <= i <= b@.len(),
            out@ == mid + b@.subrange(0, i as int),
        decreases b.len() - i,
    {
        out.push(b[i]);
        proof {
            assert(out@ =~= mid + b@.subrange(0, i + 1 as int));
        }
        i += 1;
    }
    proof {
        assert(b@.subrange(0, b@.len() as int) =~= b@);
        assert(out@ =~= old(out)@ + enc_bytes(b@));
    }
}

fn push_id_list(out: &mut Vec<u8>, v: &Vec<Vec<u8>>)
    ensures
        final(out)@ == old(out)@ + enc_id_list(v.deep_view()),
{
    let ghost dv = v.deep_view();
    push_le64(out, v.len() as u64);
    let ghost mid = out@;
    let mut i: usize = 0;
    while i < v.len()
        invariant
            0 <= i <= v.len(),
            dv == v.deep_view(),
            out@ == mid + enc_id_items(dv.subrange(0, i as int)),
        decreases v.len() - i,
    {
        proof {
            assert(dv[i as int] == v[i as int]@);
        }
        push_bytes(out, &v[i]);
        proof {
            let cur = dv.subrange(0, i + 1 as int);
            assert(cur.drop_last() =~= dv.subrange(0, i as int));
            assert(cur.last() == dv[i as int]);
            assert(out@ =~= mid + enc_id_items(cur));
        }
        i += 1;
    }
    proof {
        assert(dv.subrange(0, dv.len() as int) =~= dv);
        assert(dv.len() == v@.len());
        assert(out@ =~= old(out)@ + enc_id_list(dv));
    }
}

/// Encodes one object for transport. The result is exactly the canonical
/// encoding of the object's value, so equal values always encode to equal
/// bytes (the property content addressing relies on).
pub fn encode_git_object(g: &GitObject) -> (r: Vec<u8>)
    ensures
        r@ == spec_encode_git_object(g@),
{
    let mut out: Vec<u8> = Vec::new();
    push_bytes(&mut out, &g.git_hash);
    push_bytes(&mut out, &g.raw_data);
    match &g.metadata {
        GitObjectMetadata::Commit { parent_git_hashes, tree_git_hash } => {
            let ghost pre = out@;
            out.push(0u8);
            proof {
                assert(out@ =~= pre + seq![0u8]);
            }
            push_id_list(&mut out, parent_git_hashes);
            push_bytes(&mut out, tree_git_hash);
        },
        GitObjectMetadata::Tag { target_git_hash } => {
            let ghost pre = out@;
            out.push(1u8);
            proof {
                assert(out@ =~= pre + seq![1u8]);
            }
            push_bytes(&mut out, target_git_hash);
        },
        GitObjectMetadata::Tree { entry_git_hashes } => {
            let ghost pre = out@;
            out.push(2u8);
            proof {
                assert(out@ =~= pre + seq![2u8]);
            }
            push_id_list(&mut out, entry_git_hashes);
        },
        GitObjectMetadata::Blob => {
            let ghost pre = out@;
            out.push(3u8);
            proof {
                assert(out@ =~= pre + seq![3u8]);
            }
        },
    }
    proof {
        assert(out@ =~= spec_encode_git_object(g@));
    }
    out
}

/// Encodes the whole index for publication.
pub fn encode_repo_data(d: &RepoData) -> (r: Vec<u8>)
    ensures
        r@ == spec_encode_repo_data(d.refs_v(), d.objs()),
{
    let mut out: Vec<u8> = Vec::new();
    let ghost rv = d.refs.deep_view();
    push_le64(&mut out, d.refs.len() as u64);
    let ghost mid = out@;
    let mut i: usize = 0;
    while i < d.refs.len()
        invariant
            0 <= i <= d.refs.len(),
            rv == d.refs.deep_view(),
            out@ == mid + enc_ref_items(rv.subrange(0, i as int)),
        decreases d.refs.len() - i,
    {
        proof {
            assert(rv[i as int] == d.refs[i as int]@);
        }
        push_bytes(&mut out, &d.refs[i].name);
        push_bytes(&mut out, &d.refs[i].target);
        proof {
            let cur = rv.subrange(0, i + 1 as int);
            assert(cur.drop_last() =~= rv.subrange(0, i as int));
            assert(cur.last() == rv[i as int]);
            assert(out@ =~= mid + enc_ref_items(cur));
        }
        i += 1;
    }
    proof {
        assert(rv.subrange(0, rv.len() as int) =~= rv);
        assert(rv.len() == d.refs@.len());
    }
    push_id_list(&mut out, &d.objects);
    proof {
        assert(out@ =~= spec_encode_repo_data(d.refs_v(), d.objs()));
    }
    out
}

fn read_le64(b: &Vec<u8>, pos: usize) -> (r: Result<(u64, usize), RepoError>)
    ensures
        match r {
            Ok((n, p)) => pos + 8 <= b@.len() && p == pos + 8 && b@.subrange(
                pos as int,
                p as int,
            ) == le64(n),
            Err(e) => e == RepoError::DecodeError && pos + 8 > b@.len(),
        },
{
    if b.len() < 8 || pos > b.len() - 8 {
        return Err(RepoError::DecodeError);
    }
    let b0 = b[pos] as u64;
    let b1 = b[pos + 1] as u64;
    let b2 = b[pos + 2] as u64;
    let b3 = b[pos + 3] as u64;
    let b4 = b[pos + 4] as u64;
    let b5 = b[pos + 5] as u64;
    let b6 = b[pos + 6] as u64;
    let b7 = b[pos + 7] as u64;
    let n = b0 | (b1 << 8) | (b2 << 16) | (b3 << 24) | (b4 << 32) | (b5 << 40) | (b6 << 48) | (b7
        << 56);
    proof {
        assert(b0 < 256 && b1 < 256 && b2 < 256 && b3 < 256 && b4 < 256 && b5 < 256 && b6 < 256
            && b7 < 256);
        assert((b0 < 256 && b1 < 256 && b2 < 256 && b3 < 256 && b4 < 256 && b5 < 256 && b6 < 256
            && b7 < 256) ==> {
            let m = b0 | (b1 << 8) | (b2 << 16) | (b3 << 24) | (b4 << 32) | (b5 << 40) | (b6 << 48)
                | (b7 << 56);
            (m & 0xff) == b0 && ((m >> 8) & 0xff) == b1 && ((m >> 16) & 0xff) == b2 && ((m >> 24)
                & 0xff) == b3 && ((m >> 32) & 0xff) == b4 && ((m >> 40) & 0xff) == b5 && ((m >> 48)
                & 0xff) == b6 && ((m >> 56) & 0xff) == b7
        }) by (bit_vector);
        assert(b@.subrange(pos as int, pos + 8 as int) =~= le64(n));
    }
    Ok((n, pos + 8))
}

fn read_bytes(b: &Vec<u8>, pos: usize) -> (r: Result<(Vec<u8>, usize), RepoError>)
    ensures
        match r {
            Ok((v, p)) => pos <= p <= b@.len() && b@.subrange(pos as int, p as int) == enc_bytes(
                v@,
            ),
            Err(e) => e == RepoError::DecodeError && (forall|v: Seq<u8>|
                pos + 8 + v.len() <= b@.len() ==> b@.subrange(pos as int, pos + 8 + v.len()) != (
                #[trigger] enc_bytes(v))),
        },
{
    let (n, body) = match read_le64(b, pos) {
        Ok(x) => x,
        Err(e) => {
            return Err(e);
        },
    };
    if n > (b.len() - body) as u64 {
        proof {
            assert forall|v: Seq<u8>| pos + 8 + v.len() <= b@.len() implies b@.subrange(
                pos as int,
                pos + 8 + v.len(),
            ) != (#[trigger] enc_bytes(v)) by {
                if b@.subrange(pos as int, pos + 8 + v.len()) == enc_bytes(v) {
                    lemma_concat_extract(b@, pos as int, le64(v.len() as u64), v);
                    lemma_le64_inj(v.len() as u64, n);
                    assert(v.len() <= b@.len());
                    assert(b@.len() <= usize::MAX);
                    assert(v.len() <= u64::MAX);
                    assert(false);
                }
            }
        }
        return Err(RepoError::DecodeError);
    }
    let len = n as usize;
    let end = body + len;
    let mut v: Vec<u8> = Vec::new();
    let mut k: usize = body;
    while k < end
        invariant
            body <= k <= end,
            end == body + len,
            end <= b@.len(),
            v@ == b@.subrange(body as int, k as int),
        decreases end - k,
    {
        v.push(b[k]);
        proof {
            assert(v@ =~= b@.subrange(body as int, k + 1 as int));
        }
        k += 1;
    }
    proof {
        assert(v@.len() == len);
        assert(v@.len() as u64 == n);
        assert(b@.subrange(body as int, (body + len) as int) == v@);
        assert(b@.subrange(pos as int, (body + len) as int) =~= b@.subrange(
            pos as int,
            body as int,
        ) + b@.subrange(body as int, (body + len) as int));
        assert(b@.subrange(pos as int, (body + len) as int) =~= enc_bytes(v@));
    }
    Ok((v, body + len))
}

fn read_id_list(b: &Vec<u8>, pos: usize) -> (r: Result<(Vec<Vec<u8>>, usize), RepoError>)
    ensures
        match r {
            Ok((v, p)) => pos <= p <= b@.len() && b@.subrange(pos as int, p as int) == enc_id_list(
                v.deep_view(),
            ),
            Err(e) => e == RepoError::DecodeError && (forall|t: Seq<Seq<u8>>|
                pos + enc_id_list(t).len() <= b@.len() ==> b@.subrange(
                    pos as int,
                    pos + enc_id_list(t).len(),
                ) != (#[trigger] enc_id_list(t))),
        },
{
    let (n, body) = match read_le64(b, pos) {
        Ok(x) => x,
        Err(e) => {
            return Err(e);
        },
    };
    if n > b.len() as u64 {
        proof {
            assert forall|t: Seq<Seq<u8>>| pos + enc_id_list(t).len() <= b@.len() implies b@.subrange(
                pos as int,
                pos + enc_id_list(t).len(),
            ) != (#[trigger] enc_id_list(t)) by {
                if b@.subrange(pos as int, pos + enc_id_list(t).len()) == enc_id_list(t) {
                    lemma_concat_extract(b@, pos as int, le64(t.len() as u64), enc_id_items(t));
                    lemma_le64_inj(t.len() as u64, n);
                    lemma_enc_id_items_len(t);
                    assert(enc_id_list(t).len() == 8 + enc_id_items(t).len());
                    assert(t.len() <= 8 * t.len());
                    assert(t.len() <= b@.len());
                    assert(b@.len() <= usize::MAX);
                    assert(t.len() <= u64::MAX);
                    assert(false);
                }
            }
        }
        return Err(RepoError::DecodeError);
    }
    let count = n as usize;
    proof {
        assert(count == n);
    }
    let mut v: Vec<Vec<u8>> = Vec::new();
    let mut cur: usize = pos + 8;
    let mut i: usize = 0;
    while i < count
        invariant
            0 <= i <= count,
            count == n,
            b@.len() <= usize::MAX,
            pos + 8 <= cur <= b@.len(),
            b@.subrange(pos as int, pos + 8 as int) == le64(n),
            v.deep_view().len() == i,
            b@.subrange(pos + 8 as int, cur as int) == enc_id_items(v.deep_view()),
        decreases count - i,
    {
        let ghost dv = v.deep_view();
        let ghost cur0 = cur as int;
        let (item, next) = match read_bytes(b, cur) {
            Ok(x) => x,
            Err(e) => {
                proof {
                    assert forall|t: Seq<Seq<u8>>| pos + enc_id_list(t).len() <= b@.len() implies b@.subrange(
                        pos as int,
                        pos + enc_id_list(t).len(),
                    ) != (#[trigger] enc_id_list(t)) by {
                        if b@.subrange(pos as int, pos + enc_id_list(t).len()) == enc_id_list(t) {
                            lemma_concat_extract(
                                b@,
                                pos as int,
                                le64(t.len() as u64),
                                enc_id_items(t),
                            );
                            lemma_le64_inj(t.len() as u64, n);
                            lemma_enc_id_items_len(t);
                            assert(enc_id_list(t).len() == 8 + enc_id_items(t).len());
                            assert(t.len() <= 8 * t.len());
                            assert(t.len() <= b@.len());
                            assert(b@.len() <= usize::MAX);
                            assert(t.len() <= u64::MAX);
                            assert(t.len() == count);
                            lemma_enc_id_items_prefix(b@, pos + 8, dv, t);
                            lemma_enc_id_items_split(t, i as int);
                            assert(enc_id_items(t.subrange(0, i as int)) == enc_id_items(dv));
                            let rest = t.subrange(i as int, t.len() as int);
                            assert(rest.len() > 0);
                            lemma_enc_id_items_first(rest);
                            lemma_concat_extract(
                                b@,
                                pos + 8,
                                enc_id_items(dv),
                                enc_id_items(rest),
                            );
                            lemma_concat_extract(
                                b@,
                                cur as int,
                                enc_bytes(rest[0]),
                                enc_id_items(rest.subrange(1, rest.len() as int)),
                            );
                            assert(false);
                        }
                    }
                }
                return Err(e);
            },
        };
        let ghost itemv = item@;
        v.push(item);
        cur = next;
        proof {
            let dv2 = v.deep_view();
            assert(dv2.drop_last() =~~= dv) by {
                assert forall|k: int| 0 <= k < dv.len() implies dv2[k] == dv[k] by {
                    assert(dv2[k] == v[k]@);
                }
            }
            assert(dv2.last() == itemv) by {
                assert(dv2[i as int] == v[i as int]@);
            }
            assert(enc_id_items(dv2) == enc_id_items(dv) + enc_bytes(itemv));
            assert(b@.subrange(pos + 8 as int, cur as int) =~= b@.subrange(pos + 8 as int, cur0)
                + b@.subrange(cur0, cur as int));
            assert(b@.subrange(pos + 8 as int, cur as int) =~= enc_id_items(dv2));
        }
        i += 1;
    }
    proof {
        assert(v.deep_view().len() as u64 == n) by {
            assert(v.deep_view().len() == count);
        }
        assert(b@.subrange(pos as int, cur as int) =~= b@.subrange(pos as int, pos + 8 as int)
            + b@.subrange(pos + 8 as int, cur as int));
        assert(b@.subrange(pos as int, cur as int) =~= enc_id_list(v.deep_view()));
    }
    Ok((v, cur))
}

/// When a byte string is some object's encoding and its first two
/// length-prefixed fields have been read, the remainder is that object's
/// metadata: the tag byte fixes the variant and the variant's segments sit
/// at fixed positions.
proof fn lemma_decode_meta_head(
    b: Seq<u8>,
    g: GitObjectView,
    gh: Seq<u8>,
    rd: Seq<u8>,
    p2: int,
    tag: u8,
)
    requires
        b == spec_encode_git_object(g),
        b.len() <= u64::MAX,
        8 + gh.len() <= b.len(),
        b.subrange(0, 8 + gh.len() as int) == enc_bytes(gh),
        p2 == 16 + gh.len() + rd.len(),
        b.subrange(8 + gh.len() as int, p2) == enc_bytes(rd),
        p2 < b.len(),
        b[p2] == tag,
    ensures
        gh == g.git_hash,
        rd == g.raw_data,
        p2 == 16 + g.git_hash.len() + g.raw_data.len(),
        tag == 0u8 <==> g.metadata is Commit,
        tag == 1u8 <==> g.metadata is Tag,
        tag == 2u8 <==> g.metadata is Tree,
        tag == 3u8 <==> g.metadata is Blob,
        g.metadata is Commit ==> ({
            let ps = g.metadata->Commit_parent_git_hashes;
            let th = g.metadata->Commit_tree_git_hash;
            &&& p2 + 1 + enc_id_list(ps).len() + 8 + th.len() == b.len()
            &&& b.subrange(p2 + 1, p2 + 1 + enc_id_list(ps).len()) == enc_id_list(ps)
            &&& b.subrange(p2 + 1 + enc_id_list(ps).len(), b.len() as int) == enc_bytes(th)
        }),
        g.metadata is Tag ==> ({
            let th = g.metadata->Tag_target_git_hash;
            &&& p2 + 9 + th.len() == b.len()
            &&& b.subrange(p2 + 1, b.len() as int) == enc_bytes(th)
        }),
        g.metadata is Tree ==> ({
            let es = g.metadata->Tree_entry_git_hashes;
            &&& p2 + 1 + enc_id_list(es).len() == b.len()
            &&& b.subrange(p2 + 1, b.len() as int) == enc_id_list(es)
        }),
        g.metadata is Blob ==> p2 + 1 == b.len(),
{
    lemma_git_encoding_segments(b, g);
    lemma_enc_bytes_at(b, 0, gh, g.git_hash);
    lemma_enc_bytes_at(b, 8 + gh.len() as int, rd, g.raw_data);
    let em = enc_metadata(g.metadata);
    lemma_enc_metadata_shape(g.metadata);
    assert(b.subrange(p2, b.len() as int) == em);
    assert(b[p2] == em[0]) by {
        assert(b.subrange(p2, b.len() as int)[0] == b[p2]);
    }
    match g.metadata {
        GitObjectMetadataView::Commit { parent_git_hashes: ps, tree_git_hash: th } => {
            assert(em =~= seq![0u8] + (enc_id_list(ps) + enc_bytes(th)));
            lemma_concat_extract(b, p2, seq![0u8], enc_id_list(ps) + enc_bytes(th));
            lemma_concat_extract(b, p2 + 1, enc_id_list(ps), enc_bytes(th));
        },
        GitObjectMetadataView::Tag { target_git_hash: th } => {
            assert(em =~= seq![1u8] + enc_bytes(th));
            lemma_concat_extract(b, p2, seq![1u8], enc_bytes(th));
        },
        GitObjectMetadataView::Tree { entry_git_hashes: es } => {
            assert(em =~= seq![2u8] + enc_id_list(es));
            lemma_concat_extract(b, p2, seq![2u8], enc_id_list(es));
        },
        GitObjectMetadataView::Blob => {
            assert(em.len() == 1);
        },
    }
}

/// Decodes one transported object. A byte string is accepted if and only
/// if it is exactly the canonical encoding of the returned object; anything
/// else is a `DecodeError` — an error is returned only on input that no
/// object encodes to, so with the encoding's injectivity
/// (`lemma_encode_git_object_injective`) decoding an encoding gives back
/// the encoded object.
#[verifier::rlimit(90)]
pub fn decode_git_object(b: &Vec<u8>) -> (r: Result<GitObject, RepoError>)
    ensures
        match r {
            Ok(g) => b@ == spec_encode_git_object(g@),
            Err(e) => e == RepoError::DecodeError && (forall|g: GitObjectView|
                b@ != #[trigger] spec_encode_git_object(g)),
        },
{
    let blen = b.len();
    proof {
        assert(b@.len() <= u64::MAX);
    }
    let (git_hash, p1) = match read_bytes(b, 0) {
        Ok(x) => x,
        Err(e) => {
            proof {
                assert forall|g: GitObjectView| b@ != #[trigger] spec_encode_git_object(g) by {
                    if b@ == spec_encode_git_object(g) {
                        lemma_git_encoding_segments(b@, g);
                        assert(false);
                    }
                }
            }
            return Err(e);
        },
    };
    let (raw_data, p2) = match read_bytes(b, p1) {
        Ok(x) => x,
        Err(e) => {
            proof {
                assert forall|g: GitObjectView| b@ != #[trigger] spec_encode_git_object(g) by {
                    if b@ == spec_encode_git_object(g) {
                        lemma_git_encoding_segments(b@, g);
                        lemma_read_len(b@, 0, p1 as int, git_hash@);
                        lemma_enc_bytes_at(b@, 0, git_hash@, g.git_hash);
                        assert(false);
                    }
                }
            }
            return Err(e);
        },
    };
    if p2 >= b.len() {
        proof {
            assert forall|g: GitObjectView| b@ != #[trigger] spec_encode_git_object(g) by {
                if b@ == spec_encode_git_object(g) {
                    lemma_git_encoding_segments(b@, g);
                    lemma_read_len(b@, 0, p1 as int, git_hash@);
                    lemma_enc_bytes_at(b@, 0, git_hash@, g.git_hash);
                    lemma_read_len(b@, p1 as int, p2 as int, raw_data@);
                    lemma_enc_bytes_at(b@, p1 as int, raw_data@, g.raw_data);
                    assert(false);
                }
            }
        }
        return Err(RepoError::DecodeError);
    }
    let tag = b[p2];
    let p3 = p2 + 1;
    proof {
        assert(b@.subrange(p2 as int, p3 as int) =~= seq![tag]);
    }
    let (metadata, end) = if tag == 0u8 {
        let (parents, p4) = match read_id_list(b, p3) {
            Ok(x) => x,
            Err(e) => {
                proof {
                    assert forall|g: GitObjectView| b@ != #[trigger] spec_encode_git_object(g) by {
                        if b@ == spec_encode_git_object(g) {
                            lemma_read_len(b@, 0, p1 as int, git_hash@);
                            lemma_read_len(b@, p1 as int, p2 as int, raw_data@);
                            lemma_decode_meta_head(b@, g, git_hash@, raw_data@, p2 as int, tag);
                            assert(g.metadata is Commit);
                            assert(false);
                        }
                    }
                }
                return Err(e);
            },
        };
        let (tree, p5) = match read_bytes(b, p4) {
            Ok(x) => x,
            Err(e) => {
                proof {
                    assert forall|g: GitObjectView| b@ != #[trigger] spec_encode_git_object(g) by {
                        if b@ == spec_encode_git_object(g) {
                            lemma_read_len(b@, 0, p1 as int, git_hash@);
                            lemma_read_len(b@, p1 as int, p2 as int, raw_data@);
                            lemma_decode_meta_head(b@, g, git_hash@, raw_data@, p2 as int, tag);
                            assert(g.metadata is Commit);
                            let ps = g.metadata->Commit_parent_git_hashes;
                            lemma_enc_id_list_at(b@, p3 as int, parents.deep_view(), ps);
                            assert(false);
                        }
                    }
                }
                return Err(e);
            },
        };
        (GitObjectMetadata::Commit { parent_git_hashes: parents, tree_git_hash: tree }, p5)
    } else if tag == 1u8 {
        let (target, p4) = match read_bytes(b, p3) {
            Ok(x) => x,
            Err(e) => {
                proof {
                    assert forall|g: GitObjectView| b@ != #[trigger] spec_encode_git_object(g) by {
                        if b@ == spec_encode_git_object(g) {
                            lemma_read_len(b@, 0, p1 as int, git_hash@);
                            lemma_read_len(b@, p1 as int, p2 as int, raw_data@);
                            lemma_decode_meta_head(b@, g, git_hash@, raw_data@, p2 as int, tag);
                            assert(g.metadata is Tag);
                            assert(false);
                        }
                    }
                }
                return Err(e);
            },
        };
        (GitObjectMetadata::Tag { target_git_hash: target }, p4)
    } else if tag == 2u8 {
        let (entries, p4) = match read_id_list(b, p3) {
            Ok(x) => x,
            Err(e) => {
                proof {
                    assert forall|g: GitObjectView| b@ != #[trigger] spec_encode_git_object(g) by {
                        if b@ == spec_encode_git_object(g) {
                            lemma_read_len(b@, 0, p1 as int, git_hash@);
                            lemma_read_len(b@, p1 as int, p2 as int, raw_data@);
                            lemma_decode_meta_head(b@, g, git_hash@, raw_data@, p2 as int, tag);
                            assert(g.metadata is Tree);
                            assert(false);
                        }
                    }
                }
                return Err(e);
            },
        };
        (GitObjectMetadata::Tree { entry_git_hashes: entries }, p4)
    } else if tag == 3u8 {
        (GitObjectMetadata::Blob, p3)
    } else {
        proof {
            assert forall|g: GitObjectView| b@ != #[trigger] spec_encode_git_object(g) by {
                if b@ == spec_encode_git_object(g) {
                    lemma_read_len(b@, 0, p1 as int, git_hash@);
                    lemma_read_len(b@, p1 as int, p2 as int, raw_data@);
                    lemma_decode_meta_head(b@, g, git_hash@, raw_data@, p2 as int, tag);
                    assert(false);
                }
            }
        }
        return Err(RepoError::DecodeError);
    };
    if end != b.len() {
        proof {
            assert forall|g: GitObjectView| b@ != #[trigger] spec_encode_git_object(g) by {
                if b@ == spec_encode_git_object(g) {
                    lemma_read_len(b@, 0, p1 as int, git_hash@);
                    lemma_read_len(b@, p1 as int, p2 as int, raw_data@);
                    lemma_decode_meta_head(b@, g, git_hash@, raw_data@, p2 as int, tag);
                    let p3g = p2 as int + 1;
                    if tag == 0u8 {
                        assert(g.metadata is Commit);
                        let mv = metadata@;
                        let pdv = mv->Commit_parent_git_hashes;
                        let tdv = mv->Commit_tree_git_hash;
                        let ps = g.metadata->Commit_parent_git_hashes;
                        let th = g.metadata->Commit_tree_git_hash;
                        lemma_enc_id_list_at(b@, p3g, pdv, ps);
                        let p4g = p3g + enc_id_list(pdv).len();
                        assert(b@.subrange(p4g, end as int) == enc_bytes(tdv));
                        assert(enc_bytes(tdv).len() == 8 + tdv.len());
                        lemma_enc_bytes_at(b@, p4g, tdv, th);
                        assert(false);
                    } else if tag == 1u8 {
                        assert(g.metadata is Tag);
                        let tdv = metadata@->Tag_target_git_hash;
                        let th = g.metadata->Tag_target_git_hash;
                        assert(b@.subrange(p3g, end as int) == enc_bytes(tdv));
                        assert(enc_bytes(tdv).len() == 8 + tdv.len());
                        lemma_enc_bytes_at(b@, p3g, tdv, th);
                        assert(false);
                    } else if tag == 2u8 {
                        assert(g.metadata is Tree);
                        let edv = metadata@->Tree_entry_git_hashes;
                        let es = g.metadata->Tree_entry_git_hashes;
                        lemma_enc_id_list_at(b@, p3g, edv, es);
                        assert(false);
                    } else {
                        assert(g.metadata is Blob);
                        assert(false);
                    }
                }
            }
        }
        return Err(RepoError::DecodeError);
    }
    let g = GitObject { git_hash, raw_data, metadata };
    proof {
        assert(b@.subrange(0, b@.len() as int) =~= b@);
        assert(b@ =~= b@.subrange(0, p2 as int) + b@.subrange(p2 as int, p3 as int) + b@.subrange(
            p3 as int,
            end as int,
        ));
        assert(b@.subrange(0, p2 as int) =~= b@.subrange(0, p1 as int) + b@.subrange(
            p1 as int,
            p2 as int,
        ));
        assert(b@.subrange(p3 as int, end as int) =~= match g@.metadata {
            GitObjectMetadataView::Commit { parent_git_hashes, tree_git_hash } => enc_id_list(
                parent_git_hashes,
            ) + enc_bytes(tree_git_hash),
            GitObjectMetadataView::Tag { target_git_hash } => enc_bytes(target_git_hash),
            GitObjectMetadataView::Tree { entry_git_hashes } => enc_id_list(entry_git_hashes),
            GitObjectMetadataView::Blob => Seq::empty(),
        });
        assert(b@ =~= spec_encode_git_object(g@));
    }
    Ok(g)
}

/// Decodes a published index. A byte string is accepted if and only if it
/// is exactly the canonical encoding of the returned index — an error is
/// returned only on input that no index encodes to, so with
/// `lemma_encode_repo_data_injective` decoding an encoding gives back the
/// encoded index.
#[verifier::rlimit(90)]
pub fn decode_repo_data(b: &Vec<u8>) -> (r: Result<RepoData, RepoError>)
    ensures
        match r {
            Ok(d) => b@ == spec_encode_repo_data(d.refs_v(), d.objs()),
            Err(e) => e == RepoError::DecodeError && (forall|
                rs: Seq<RefEntryView>,
                os: Seq<Seq<u8>>,
            |
                b@ != #[trigger] spec_encode_repo_data(rs, os)),
        },
{
    let blen = b.len();
    proof {
        assert(b@.len() <= u64::MAX);
    }
    let (n, mut cur) = match read_le64(b, 0) {
        Ok(x) => x,
        Err(e) => {
            proof {
                assert forall|rs: Seq<RefEntryView>, os: Seq<Seq<u8>>| b@ != #[trigger] spec_encode_repo_data(
                    rs,
                    os,
                ) by {
                    if b@ == spec_encode_repo_data(rs, os) {
                        lemma_repo_encoding_segments(b@, rs, os);
                        assert(false);
                    }
                }
            }
            return Err(e);
        },
    };
    if n > b.len() as u64 {
        proof {
            assert forall|rs: Seq<RefEntryView>, os: Seq<Seq<u8>>| b@ != #[trigger] spec_encode_repo_data(
                rs,
                os,
            ) by {
                if b@ == spec_encode_repo_data(rs, os) {
                    lemma_repo_encoding_segments(b@, rs, os);
                    lemma_le64_inj(rs.len() as u64, n);
                    lemma_enc_ref_items_len(rs);
                    assert(rs.len() <= 16 * rs.len());
                    assert(rs.len() <= b@.len());
                    assert(b@.len() <= usize::MAX);
                    assert(rs.len() <= u64::MAX);
                    assert(false);
                }
            }
        }
        return Err(RepoError::DecodeError);
    }
    let count = n as usize;
    proof {
        assert(count == n);
    }
    let mut refs: Vec<RefEntry> = Vec::new();
    let mut i: usize = 0;
    while i < count
        invariant
            0 <= i <= count,
            count == n,
            b@.len() <= usize::MAX,
            b@.subrange(0, 8) == le64(n),
            8 <= cur <= b@.len(),
            refs.deep_view().len() == i,
            b@.subrange(8, cur as int) == enc_ref_items(refs.deep_view()),
        decreases count - i,
    {
        let ghost rv = refs.deep_view();
        let ghost cur0 = cur as int;
        let (name, p1) = match read_bytes(b, cur) {
            Ok(x) => x,
            Err(e) => {
                proof {
                    assert forall|rs: Seq<RefEntryView>, os: Seq<Seq<u8>>| b@ != #[trigger] spec_encode_repo_data(
                        rs,
                        os,
                    ) by {
                        if b@ == spec_encode_repo_data(rs, os) {
                            lemma_repo_encoding_segments(b@, rs, os);
                            lemma_le64_inj(rs.len() as u64, n);
                            lemma_enc_ref_items_len(rs);
                            assert(rs.len() <= 16 * rs.len());
                            assert(rs.len() <= b@.len());
                            assert(rs.len() <= u64::MAX);
                            assert(rs.len() == count);
                            lemma_enc_ref_items_prefix(b@, 8, rv, rs);
                            lemma_enc_ref_items_split(rs, i as int);
                            assert(enc_ref_items(rs.subrange(0, i as int)) == enc_ref_items(rv));
                            let rest = rs.subrange(i as int, rs.len() as int);
                            assert(rest.len() > 0);
                            lemma_enc_ref_items_first(rest);
                            lemma_concat_extract(b@, 8, enc_ref_items(rv), enc_ref_items(rest));
                            lemma_concat_extract(
                                b@,
                                cur as int,
                                enc_bytes(rest[0].name),
                                enc_bytes(rest[0].target) + enc_ref_items(
                                    rest.subrange(1, rest.len() as int),
                                ),
                            );
                            assert(false);
                        }
                    }
                }
                return Err(e);
            },
        };
        let (target, p2) = match read_bytes(b, p1) {
            Ok(x) => x,
            Err(e) => {
                proof {
                    assert forall|rs: Seq<RefEntryView>, os: Seq<Seq<u8>>| b@ != #[trigger] spec_encode_repo_data(
                        rs,
                        os,
                    ) by {
                        if b@ == spec_encode_repo_data(rs, os) {
                            lemma_repo_encoding_segments(b@, rs, os);
                            lemma_le64_inj(rs.len() as u64, n);
                            lemma_enc_ref_items_len(rs);
                            assert(rs.len() <= 16 * rs.len());
                            assert(rs.len() <= b@.len());
                            assert(rs.len() <= u64::MAX);
                            assert(rs.len() == count);
                            lemma_enc_ref_items_prefix(b@, 8, rv, rs);
                            lemma_enc_ref_items_split(rs, i as int);
                            assert(enc_ref_items(rs.subrange(0, i as int)) == enc_ref_items(rv));
                            let rest = rs.subrange(i as int, rs.len() as int);
                            assert(rest.len() > 0);
                            lemma_enc_ref_items_first(rest);
                            lemma_concat_extract(b@, 8, enc_ref_items(rv), enc_ref_items(rest));
                            lemma_concat_extract(
                                b@,
                                cur as int,
                                enc_bytes(rest[0].name),
                                enc_bytes(rest[0].target) + enc_ref_items(
                                    rest.subrange(1, rest.len() as int),
                                ),
                            );
                            lemma_read_len(b@, cur as int, p1 as int, name@);
                            lemma_enc_bytes_at(b@, cur as int, name@, rest[0].name);
                            lemma_concat_extract(
                                b@,
                                p1 as int,
                                enc_bytes(rest[0].target),
                                enc_ref_items(rest.subrange(1, rest.len() as int)),
                            );
                            assert(false);
                        }
                    }
                }
                return Err(e);
            },
        };
        let ghost p1g = p1 as int;
        refs.push(RefEntry { name, target });
        cur = p2;
        proof {
            let rv2 = refs.deep_view();
            assert(rv2.drop_last() =~= rv) by {
                assert forall|k: int| 0 <= k < rv.len() implies rv2[k] == rv[k] by {
                    assert(rv2[k] == refs[k]@);
                }
            }
            assert(rv2.last() == refs[i as int]@);
            assert(b@.subrange(cur0, cur as int) =~= b@.subrange(cur0, p1g) + b@.subrange(
                p1g,
                cur as int,
            ));
            assert(b@.subrange(8, cur as int) =~= b@.subrange(8, cur0) + b@.subrange(
                cur0,
                cur as int,
            ));
            assert(b@.subrange(8, cur as int) =~= enc_ref_items(rv2));
        }
        i += 1;
    }
    let (objects, end) = match read_id_list(b, cur) {
        Ok(x) => x,
        Err(e) => {
            proof {
                assert forall|rs: Seq<RefEntryView>, os: Seq<Seq<u8>>| b@ != #[trigger] spec_encode_repo_data(
                    rs,
                    os,
                ) by {
                    if b@ == spec_encode_repo_data(rs, os) {
                        lemma_repo_encoding_segments(b@, rs, os);
                        lemma_le64_inj(rs.len() as u64, n);
                        lemma_enc_ref_items_len(rs);
                        assert(rs.len() <= 16 * rs.len());
                        assert(rs.len() <= b@.len());
                        assert(rs.len() <= u64::MAX);
                        assert(rs.len() == count);
                        lemma_enc_ref_items_prefix(b@, 8, refs.deep_view(), rs);
                        assert(rs.subrange(0, rs.len() as int) =~= rs);
                        assert(refs.deep_view() == rs);
                        assert(false);
                    }
                }
            }
            return Err(e);
        },
    };
    if end != b.len() {
        proof {
            assert forall|rs: Seq<RefEntryView>, os: Seq<Seq<u8>>| b@ != #[trigger] spec_encode_repo_data(
                rs,
                os,
            ) by {
                if b@ == spec_encode_repo_data(rs, os) {
                    lemma_repo_encoding_segments(b@, rs, os);
                    lemma_le64_inj(rs.len() as u64, n);
                    lemma_enc_ref_items_len(rs);
                    assert(rs.len() <= 16 * rs.len());
                    assert(rs.len() <= b@.len());
                    assert(rs.len() <= u64::MAX);
                    assert(rs.len() == count);
                    lemma_enc_ref_items_prefix(b@, 8, refs.deep_view(), rs);
                    assert(rs.subrange(0, rs.len() as int) =~= rs);
                    assert(refs.deep_view() == rs);
                    lemma_enc_id_list_at(b@, cur as int, objects.deep_view(), os);
                    assert(false);
                }
            }
        }
        return Err(RepoError::DecodeError);
    }
    let d = RepoData { refs, objects };
    proof {
        assert(d.refs_v().len() as u64 == n) by {
            assert(d.refs_v().len() == count);
        }
        assert(b@.subrange(0, b@.len() as int) =~= b@);
        assert(b@ =~= b@.subrange(0, 8) + b@.subrange(8, cur as int) + b@.subrange(
            cur as int,
            end as int,
        ));
        assert(b@ =~= spec_encode_repo_data(d.refs_v(), d.objs()));
    }
    Ok(d)
}

} // verus!

