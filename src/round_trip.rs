//! What a finished index answers: exactly the entries it was built from.
use vstd::prelude::*;
use vstd::arithmetic::power2::pow2;
use crate::builder::{Builder, lemma_bucket_monotone};
use crate::bytes::lex_lt;
use crate::depth::{bucket_of, head32};
use crate::format::{masked_entry_key, strip_key};
use crate::order::{lemma_mask_stored, lemma_same_bucket, lemma_strip_order};
use crate::read_at::{FileLen, ReadAt};
use crate::reader::{Index, has_index_header, stored_table, table_blob, table_len};
use crate::bytes::{be_bytes, be_value, lemma_be_roundtrip};
use crate::format::{deflated, index_header, inflated};
use crate::header::{is_prefix, no_newline};
use crate::read_at::till_eof;
use crate::table::{is_table_raw, raw_offset, lemma_be_len};
use vstd::utf8::encode_utf8;

verus! {

impl Builder {
    /// Number of entries before the start of bucket `b` once finished.
    pub open spec fn final_start(&self, b: int) -> nat {
        if b < self.offsets@.len() {
            self.starts@[b]
        } else {
            self.keys@.len()
        }
    }
}

/// Every key falls in a bucket of the table.
pub proof fn lemma_bucket_bound(d: nat, k: Seq<u8>)
    requires
        d <= 24,
    ensures
        bucket_of(d, k) < pow2(d),
{
    let s = (32 - d) as nat;
    vstd::arithmetic::power2::lemma2_to64();
    vstd::arithmetic::power2::lemma_pow2_adds(d, s);
    vstd::arithmetic::power2::lemma_pow2_pos(s);
    assert(head32(k) < 0x1_0000_0000);
    assert(pow2(s) * pow2(d) == pow2(d) * pow2(s)) by (nonlinear_arith);
    vstd::arithmetic::div_mod::lemma_multiply_divide_lt(head32(k) as int, pow2(s) as int, pow2(d) as int);
}

pub proof fn lemma_final_layout(bld: Builder, b: int)
    requires
        bld.wf(),
        0 <= b <= pow2(bld.depth@),
    ensures
        bld.final_offsets()[b] == bld.header_len + bld.final_start(b) * bld.spec_entry_size(),
        bld.final_start(b) <= bld.keys@.len(),
        forall|j: int| 0 <= j < bld.final_start(b) ==> bucket_of(bld.depth@, #[trigger] bld.keys@[j]) < b,
        forall|j: int| bld.final_start(b) <= j < bld.keys@.len() ==> bucket_of(bld.depth@, #[trigger] bld.keys@[j]) >= b,
{
    let n = bld.keys@.len() as int;
    let d = bld.depth@;
    let len = bld.offsets@.len() as int;
    if b < len {
        assert(bld.final_offsets()[b] == bld.offsets@[b]);
        assert(bld.offsets@[b] == bld.header_len + bld.starts@[b] * bld.spec_entry_size());
        assert forall|j: int| 0 <= j < bld.final_start(b) implies bucket_of(d, #[trigger] bld.keys@[j]) < b by {
            assert(bld.starts@[b] == bld.final_start(b));
        }
        assert forall|j: int| bld.final_start(b) <= j < n implies bucket_of(d, #[trigger] bld.keys@[j]) >= b by {
            assert(bld.starts@[b] == bld.final_start(b));
        }
    } else {
        assert(bld.final_offsets()[b] == bld.position);
        assert forall|j: int| 0 <= j < n implies bucket_of(d, #[trigger] bld.keys@[j]) < b by {
            let p = bld.previous->Some_0;
            assert(bld.previous is Some);
            assert(bucket_of(d, p@) + 1 == len);
            if j < n - 1 {
                lemma_bucket_monotone(d, bld.keys@[j], bld.keys@[n - 1]);
            }
        }
    }
}

/// `ix` reads the file that `bld` wrote: same key, payload and depth, the
/// table `bld` finishes with, and the bytes `bld` produced at its start.
pub open spec fn same_as_built<R: ReadAt + FileLen>(bld: Builder, ix: Index<R>) -> bool {
    &&& bld.wf()
    &&& ix.wf()
    &&& ix.table.depth == bld.depth
    &&& ix.key_size == bld.key_bytes
    &&& ix.payload_size == bld.payload_size
    &&& ix.table.file_offsets@ == bld.final_offsets()
    &&& bld.written@.len() <= ix.database.content().len()
    &&& ix.database.content().subrange(0, bld.written@.len() as int) == bld.written@
}

proof fn lemma_region<R: ReadAt + FileLen>(bld: Builder, ix: Index<R>, q: Seq<u8>, i: int)
    requires
        same_as_built(bld, ix),
        q.len() == bld.key_bytes,
        0 <= i,
        bld.final_start(bucket_of(bld.depth@, q) as int) + i < bld.final_start(bucket_of(bld.depth@, q) + 1int),
    ensures
        ({
            let bq = bucket_of(bld.depth@, q) as int;
            let j = bld.final_start(bq) + i;
            let s = ix.bucket_start(q);
            let e = ix.entry_size() as int;
            &&& 0 <= j < bld.keys@.len()
            &&& ix.stored_key(s, i) == strip_key(bld.keys@[j], bld.depth@)
            &&& ix.stored_payload(s, i) == bld.payloads@[j]
            &&& bucket_of(bld.depth@, bld.keys@[j]) == bq
            &&& s + (i + 1) * e <= ix.database.content().len()
        }),
{
    let d = bld.depth@;
    let bq = bucket_of(d, q) as int;
    lemma_bucket_bound(d, q);
    lemma_final_layout(bld, bq);
    lemma_final_layout(bld, bq + 1);
    let i0 = bld.final_start(bq) as int;
    let j = i0 + i;
    let n = bld.keys@.len() as int;
    let e = bld.spec_entry_size() as int;
    let h = bld.header_len as int;
    let ks = bld.spec_stored_key_size() as int;
    let s = ix.bucket_start(q);
    let c = ix.database.content();
    let w = bld.written@;
    assert(s == h + i0 * e);
    assert(s + i * e == h + j * e) by (nonlinear_arith)
        requires
            s == h + i0 * e,
            j == i0 + i,
    ;
    assert(s + (i + 1) * e == h + j * e + e) by (nonlinear_arith)
        requires
            s + i * e == h + j * e,
    ;
    assert(j * e + e <= n * e) by (nonlinear_arith)
        requires
            j < n,
            e > 0,
    ;
    assert(j * e >= 0) by (nonlinear_arith)
        requires
            j >= 0,
            e > 0,
    ;
    assert(w.len() == h + n * e);
    assert(c.subrange(h + j * e, h + j * e + ks) =~= w.subrange(h + j * e, h + j * e + ks));
    assert(c.subrange(h + j * e + ks, h + j * e + e) =~= w.subrange(h + j * e + ks, h + j * e + e));
    assert(w.subrange(h + j * e, h + j * e + ks) == strip_key(bld.keys@[j], d));
    assert(w.subrange(h + j * e + ks, h + j * e + e) == bld.payloads@[j]);
    lemma_mask_stored(bld.keys@[j], d);
    assert(ix.stored_key_size() == ks);
    assert(ix.entry_size() == e);
}

/// Round trip: in an index whose table and entries are those a builder
/// wrote, the scan of the bucket of a key finds payload `p` exactly when
/// that key was added with `p`, and finds nothing exactly when the key was
/// never added.
pub proof fn lemma_round_trip<R: ReadAt + FileLen>(bld: Builder, ix: Index<R>, q: Seq<u8>, p: Seq<u8>)
    requires
        same_as_built(bld, ix),
        q.len() == bld.key_bytes,
    ensures
        ix.scan_finds(q, p) <==> exists|j: int| 0 <= j < bld.keys@.len() && bld.keys@[j] == q && bld.payloads@[j] == p,
        ix.scan_misses(q) <==> forall|j: int| 0 <= j < bld.keys@.len() ==> bld.keys@[j] != q,
{
    let d = bld.depth@;
    let bq = bucket_of(d, q) as int;
    let n = bld.keys@.len() as int;
    let e = bld.spec_entry_size() as int;
    let h = bld.header_len as int;
    lemma_bucket_bound(d, q);
    lemma_final_layout(bld, bq);
    lemma_final_layout(bld, bq + 1);
    let i0 = bld.final_start(bq) as int;
    let i1 = bld.final_start(bq + 1) as int;
    assert(i0 <= i1) by {
        if i1 < i0 {
            assert(bucket_of(d, bld.keys@[i1]) < bq);
            assert(bucket_of(d, bld.keys@[i1]) >= bq + 1);
        }
    }
    let s = ix.bucket_start(q);
    let t = strip_key(q, d);
    assert(ix.bucket_len(q) == (i1 - i0) * e) by (nonlinear_arith)
        requires
            ix.bucket_len(q) == (h + i1 * e) - (h + i0 * e),
    ;
    vstd::arithmetic::div_mod::lemma_div_by_multiple(i1 - i0, e);
    assert(ix.bucket_len(q) / e == i1 - i0);
    assert(ix.entry_size() == e);
    // The keys of the bucket are those from i0 to i1.
    assert forall|j: int| 0 <= j < n && #[trigger] bld.keys@[j] == q implies i0 <= j < i1 by {
        if j < i0 {
            assert(bucket_of(d, bld.keys@[j]) < bq);
        }
        if j >= i1 {
            assert(bucket_of(d, bld.keys@[j]) >= bq + 1);
        }
    }
    if ix.scan_finds(q, p) {
        let i = choose|i: int| #![trigger ix.stored_key(s, i)]
            0 <= i < ix.bucket_len(q) / e && s + (i + 1) * e <= ix.database.content().len()
            && (forall|j: int| 0 <= j < i ==> lex_lt(#[trigger] ix.stored_key(s, j), t))
            && ix.stored_key(s, i) == t && p == ix.stored_payload(s, i);
        lemma_region(bld, ix, q, i);
        let j = i0 + i;
        lemma_same_bucket(d, bld.keys@[j], q);
        lemma_strip_order(d, bld.keys@[j], q);
        assert(bld.keys@[j] == q && bld.payloads@[j] == p);
    }
    if exists|j: int| 0 <= j < n && bld.keys@[j] == q && bld.payloads@[j] == p {
        let j = choose|j: int| 0 <= j < n && bld.keys@[j] == q && bld.payloads@[j] == p;
        let i = j - i0;
        lemma_region(bld, ix, q, i);
        assert forall|x: int| 0 <= x < i implies lex_lt(#[trigger] ix.stored_key(s, x), t) by {
            lemma_region(bld, ix, q, x);
            let jx = i0 + x;
            assert(lex_lt(bld.keys@[jx], bld.keys@[j]));
            lemma_same_bucket(d, bld.keys@[jx], q);
            lemma_strip_order(d, bld.keys@[jx], q);
        }
        assert(ix.stored_key(s, i) == t);
        assert(ix.scan_finds(q, p));
    }
    if forall|j: int| 0 <= j < n ==> bld.keys@[j] != q {
        assert forall|i: int| #![trigger ix.stored_key(s, i)]
            0 <= i < ix.bucket_len(q) / e && (forall|x: int| 0 <= x < i ==> lex_lt(#[trigger] ix.stored_key(s, x), t))
            implies ix.stored_key(s, i) != t by {
            lemma_region(bld, ix, q, i);
            let j = i0 + i;
            lemma_same_bucket(d, bld.keys@[j], q);
            lemma_strip_order(d, bld.keys@[j], q);
        }
        assert(ix.scan_misses(q));
    }
    if exists|j: int| 0 <= j < n && bld.keys@[j] == q {
        let j = choose|j: int| 0 <= j < n && bld.keys@[j] == q;
        let i = j - i0;
        lemma_region(bld, ix, q, i);
        assert forall|x: int| 0 <= x < i implies lex_lt(#[trigger] ix.stored_key(s, x), t) by {
            lemma_region(bld, ix, q, x);
            let jx = i0 + x;
            assert(lex_lt(bld.keys@[jx], bld.keys@[j]));
            lemma_same_bucket(d, bld.keys@[jx], q);
            lemma_strip_order(d, bld.keys@[jx], q);
        }
        assert(ix.stored_key(s, i) == t);
        assert(!ix.scan_misses(q));
    }
}

proof fn lemma_header_unique(
    h: Seq<u8>,
    n1: Seq<u8>,
    d1: Seq<u8>,
    k1: u8,
    p1: u8,
    n2: Seq<u8>,
    d2: Seq<u8>,
    k2: u8,
    p2: u8,
)
    requires
        is_prefix(index_header(n1, d1, k1, p1), h),
        is_prefix(index_header(n2, d2, k2, p2), h),
        no_newline(n1),
        no_newline(d1),
        no_newline(n2),
        no_newline(d2),
    ensures
        n1 == n2,
        d1 == d2,
        k1 == k2,
        p1 == p2,
{
    let h1 = index_header(n1, d1, k1, p1);
    let h2 = index_header(n2, d2, k2, p2);
    assert forall|i: int| 0 <= i < h1.len() implies h[i] == h1[i] by {
        assert(h.subrange(0, h1.len() as int)[i] == h[i]);
    }
    assert forall|i: int| 0 <= i < h2.len() implies h[i] == h2[i] by {
        assert(h.subrange(0, h2.len() as int)[i] == h[i]);
    }
    if (n1.len() as int) < (n2.len() as int) {
        assert(h1[14 + (n1.len() as int)] == 0x0au8);
        assert(h2[14 + (n1.len() as int)] == n2[n1.len() as int]);
    } else if (n2.len() as int) < (n1.len() as int) {
        assert(h2[14 + (n2.len() as int)] == 0x0au8);
        assert(h1[14 + (n2.len() as int)] == n1[n2.len() as int]);
    }
    assert forall|i: int| 0 <= i < (n1.len() as int) implies n1[i] == n2[i] by {
        assert(h1[14 + i] == n1[i]);
        assert(h2[14 + i] == n2[i]);
    }
    assert(n1 =~= n2);
    let s: int = 15 + (n1.len() as int);
    if (d1.len() as int) < (d2.len() as int) {
        assert(h1[s + (d1.len() as int)] == 0x0au8);
        assert(h2[s + (d1.len() as int)] == d2[d1.len() as int]);
    } else if (d2.len() as int) < (d1.len() as int) {
        assert(h2[s + (d2.len() as int)] == 0x0au8);
        assert(h1[s + (d2.len() as int)] == d1[d2.len() as int]);
    }
    assert forall|i: int| 0 <= i < (d1.len() as int) implies d1[i] == d2[i] by {
        assert(h1[s + i] == d1[i]);
        assert(h2[s + i] == d2[i]);
    }
    assert(d1 =~= d2);
    assert(h1[s + (d1.len() as int) + 1] == k1 && h2[s + (d1.len() as int) + 1] == k2);
    assert(h1[s + (d1.len() as int) + 2] == p1 && h2[s + (d1.len() as int) + 2] == p2);
}

/// A finished index, once opened, is read as the builder wrote it: when
/// `open` succeeds on the bytes the builder produced, ending with what
/// `finish` returned, the reader's header, table and entries are the
/// builder's. With `lemma_round_trip` and the contract of `lookup`, every
/// lookup in it finds exactly the entries added.
pub proof fn lemma_opened_built<R: ReadAt + FileLen>(bld: Builder, ix: Index<R>, raw: Seq<u8>)
    requires
        bld.wf(),
        is_table_raw(raw, bld.depth@, bld.final_offsets()),
        deflated(raw).len() < 0x1_0000_0000,
        ix.database.content() == bld.written@ + deflated(raw) + be_bytes(deflated(raw).len(), 4),
        ix.wf(),
        has_index_header(
            till_eof(ix.database.content(), 0, 4096),
            ix.key_type.spec_name(),
            encode_utf8(ix.description@),
            ix.key_size,
            ix.payload_size,
        ),
        stored_table(ix.database.content(), ix.table),
    ensures
        same_as_built(bld, ix),
{
    let c = ix.database.content();
    let w = bld.written@;
    let z = deflated(raw);
    let l = z.len();
    vstd::arithmetic::power2::lemma2_to64();
    vstd::arithmetic::power2::lemma2_to64_rest();
    lemma_be_len(l, 4);
    lemma_be_roundtrip(l, 4);
    assert(c.subrange(c.len() - 4, c.len() as int) =~= be_bytes(l, 4));
    assert(table_len(c) == l);
    assert(table_blob(c) =~= z);
    assert(inflated(table_blob(c)) == raw);
    bld.depth.lemma_same(ix.table.depth);
    let f = bld.final_offsets();
    assert(ix.table.file_offsets@.len() == f.len());
    assert forall|i: int| 0 <= i < f.len() implies ix.table.file_offsets@[i] == f[i] by {
        assert(raw.subrange(1 + 8 * i, 9 + 8 * i) == be_bytes(f[i] as nat, 8));
        lemma_be_roundtrip(f[i] as nat, 8);
        assert(ix.table.file_offsets@[i] == raw_offset(raw, i));
    }
    assert(ix.table.file_offsets@ =~= f);
    assert(c.subrange(0, w.len() as int) =~= w);
    let h = till_eof(c, 0, 4096);
    let hb = index_header(bld.header_text@.0, bld.header_text@.1, bld.key_bytes, bld.payload_size);
    assert(hb.len() == bld.header_len);
    assert(h.subrange(0, hb.len() as int) =~= w.subrange(0, bld.header_len as int));
    lemma_header_unique(
        h,
        bld.header_text@.0,
        bld.header_text@.1,
        bld.key_bytes,
        bld.payload_size,
        ix.key_type.spec_name(),
        encode_utf8(ix.description@),
        ix.key_size,
        ix.payload_size,
    );
}

} // verus!
