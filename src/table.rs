//! The bucket table: one offset per bucket and the end of the entries.
use vstd::prelude::*;
use vstd::arithmetic::power2::pow2;
use crate::bytes::{be_bytes, be_value, push_be, read_be_u64};
use crate::depth::{Depth, LimPrefix, bucket_of};
use crate::errors::{TableReadError, unexpected_eof};

verus! {

/// Offsets never decrease.
pub open spec fn offsets_sorted(offsets: Seq<u64>) -> bool {
    forall|i: int, j: int| 0 <= i <= j < offsets.len() ==> offsets[i] <= offsets[j]
}

/// The `i`-th offset stored in serialized table `data`.
pub open spec fn raw_offset(data: Seq<u8>, i: int) -> nat {
    be_value(data.subrange(1 + 8 * i, 9 + 8 * i))
}

/// `data` is the serialized form of depth `d` and `offsets`: the depth byte,
/// then each offset as eight big-endian bytes.
pub open spec fn is_table_raw(data: Seq<u8>, d: nat, offsets: Seq<u64>) -> bool {
    &&& data.len() == 1 + 8 * offsets.len()
    &&& data[0] == d
    &&& forall|i: int| 0 <= i < offsets.len() ==> #[trigger] data.subrange(1 + 8 * i, 9 + 8 * i)
        == be_bytes(offsets[i] as nat, 8)
}

/// Maps each bucket of a key prefix to the byte range of its entries.
pub struct Table {
    pub depth: Depth,
    pub file_offsets: Vec<u64>,
}

impl Table {
    /// One offset per bucket plus the end, never decreasing.
    pub open spec fn wf(&self) -> bool {
        &&& self.depth@ <= 24
        &&& self.file_offsets@.len() == pow2(self.depth@) + 1
        &&& offsets_sorted(self.file_offsets@)
    }

    /// Depth of the table.
    pub fn depth(&self) -> (r: Depth)
        ensures
            r == self.depth,
    {
        self.depth
    }

    /// Byte range of the bucket of `key`.
    pub fn lookup(&self, key: &[u8]) -> (r: (u64, u64))
        requires
            self.wf(),
        ensures
            r.0 == self.file_offsets@[bucket_of(self.depth@, key@) as int],
            r.1 == self.file_offsets@[bucket_of(self.depth@, key@) + 1int],
            r.0 <= r.1,
    {
        let b = self.depth.index(key) as usize;
        let n = self.file_offsets.len();
        assert(b + 1 < n);
        (self.file_offsets[b], self.file_offsets[b + 1])
    }

    /// Byte range of the bucket of `prefix`.
    pub fn lookup_prefix(&self, prefix: LimPrefix) -> (r: (u64, u64))
        requires
            self.wf(),
            prefix.wf(),
            prefix.depth == self.depth,
        ensures
            r.0 == self.file_offsets@[prefix.bucket as int],
            r.1 == self.file_offsets@[prefix.bucket + 1int],
            r.0 <= r.1,
    {
        let b = prefix.index() as usize;
        let n = self.file_offsets.len();
        assert(b + 1 < n);
        (self.file_offsets[b], self.file_offsets[b + 1])
    }

    /// Serialized form: the depth byte, then each offset big-endian.
    pub fn to_raw(&self) -> (r: Vec<u8>)
        requires
            self.file_offsets@.len() <= pow2(24) + 1,
        ensures
            is_table_raw(r@, self.depth@, self.file_offsets@),
    {
        let mut out: Vec<u8> = Vec::new();
        out.push(self.depth.as_u8());
        let n = self.file_offsets.len();
        let mut i: usize = 0;
        proof {
            vstd::arithmetic::power2::lemma2_to64();
        }
        while i < n
            invariant
                i <= n,
                n == self.file_offsets@.len(),
                n <= pow2(24) + 1,
                pow2(24) == 0x1000000,
                out@.len() == 1 + 8 * i,
                out@[0] == self.depth@,
                forall|j: int| 0 <= j < i ==> #[trigger] out@.subrange(1 + 8 * j, 9 + 8 * j) == be_bytes(
                    self.file_offsets@[j] as nat,
                    8,
                ),
            decreases n - i,
        {
            let ghost before = out@;
            push_be(&mut out, self.file_offsets[i], 8);
            proof {
                lemma_be_len(self.file_offsets@[i as int] as nat, 8);
                assert forall|j: int| 0 <= j < i + 1 implies #[trigger] out@.subrange(1 + 8 * j, 9 + 8 * j)
                    == be_bytes(self.file_offsets@[j] as nat, 8) by {
                    if j < i {
                        assert(out@.subrange(1 + 8 * j, 9 + 8 * j) =~= before.subrange(1 + 8 * j, 9 + 8 * j));
                    } else {
                        assert(out@.subrange(1 + 8 * j, 9 + 8 * j) =~= be_bytes(self.file_offsets@[j] as nat, 8));
                    }
                }
            }
            i = i + 1;
        }
        out
    }

    /// Parse a serialized table, checking its depth, its size and that its
    /// offsets never decrease.
    pub fn from_raw(data: &[u8]) -> (r: Result<Table, TableReadError>)
        ensures
            data@.len() == 0 ==> r matches Err(TableReadError::IOError(_)),
            data@.len() > 0 && data@[0] > 24 ==> (r matches Err(TableReadError::InvalidDepth { depth }) && depth
                == data@[0]),
            data@.len() > 0 && data@[0] <= 24 ==> {
                let n = pow2(data@[0] as nat) + 1;
                &&& data@.len() < 1 + 8 * n ==> (r matches Err(TableReadError::IOError(_)))
                &&& data@.len() > 1 + 8 * n ==> (r matches Err(TableReadError::TooMuchTableData))
                &&& data@.len() == 1 + 8 * n ==> {
                    let sorted = forall|i: int, j: int| 0 <= i <= j < n ==> raw_offset(data@, i) <= raw_offset(data@, j);
                    &&& !sorted ==> (r matches Err(TableReadError::InvalidTableOffsets))
                    &&& sorted ==> r is Ok
                }
            },
            r matches Ok(t) ==> t.wf() && t.depth@ == data@[0] && t.file_offsets@.len() == pow2(data@[0] as nat) + 1
                && forall|i: int| 0 <= i < t.file_offsets@.len() ==> #[trigger] t.file_offsets@[i] == raw_offset(data@, i),
    {
        if data.len() == 0 {
            return Err(TableReadError::IOError(unexpected_eof()));
        }
        let d = data[0];
        let depth = match Depth::new(d) {
            Some(depth) => depth,
            None => return Err(TableReadError::InvalidDepth { depth: d }),
        };
        let entries = depth.table_entries();
        proof {
            vstd::arithmetic::power2::lemma2_to64();
            if d < 24 {
                vstd::arithmetic::power2::lemma_pow2_strictly_increases(d as nat, 24);
            }
        }
        if data.len() - 1 < 8 * entries {
            return Err(TableReadError::IOError(unexpected_eof()));
        }
        if data.len() - 1 > 8 * entries {
            return Err(TableReadError::TooMuchTableData);
        }
        let mut offsets: Vec<u64> = Vec::new();
        let mut i: usize = 0;
        let dl = data.len();
        while i < entries
            invariant
                i <= entries,
                dl == data@.len(),
                d == data@[0],
                d <= 24,
                entries == pow2(d as nat) + 1,
                data@.len() == 1 + 8 * entries,
                offsets@.len() == i,
                forall|j: int| 0 <= j < i ==> #[trigger] offsets@[j] == raw_offset(data@, j),
            decreases entries - i,
        {
            let v = read_be_u64(data, 1 + 8 * i);
            offsets.push(v);
            i = i + 1;
        }
        let mut k: usize = 0;
        while k + 1 < entries
            invariant
                entries >= 1,
                offsets@.len() == entries,
                k + 1 <= entries,
                d == data@[0],
                d <= 24,
                entries == pow2(d as nat) + 1,
                data@.len() == 1 + 8 * entries,
                forall|j: int| 0 <= j < entries ==> #[trigger] offsets@[j] == raw_offset(data@, j),
                forall|a: int, b: int| 0 <= a <= b <= k ==> offsets@[a] <= offsets@[b],
            decreases entries - k,
        {
            if offsets[k] > offsets[k + 1] {
                assert(!(offsets@[k as int] <= offsets@[k + 1]));
                assert(raw_offset(data@, k as int) == offsets@[k as int]);
                assert(raw_offset(data@, k + 1) == offsets@[k + 1]);
                assert(data@[0] <= 24);
                assert(data@.len() == 1 + 8 * (pow2(data@[0] as nat) + 1));
                assert(!(raw_offset(data@, k as int) <= raw_offset(data@, k + 1)));
                return Err(TableReadError::InvalidTableOffsets);
            }
            k = k + 1;
        }
        assert forall|a: int, b: int| 0 <= a <= b < entries implies raw_offset(data@, a) <= raw_offset(data@, b) by {
            assert(offsets@[a] == raw_offset(data@, a));
            assert(offsets@[b] == raw_offset(data@, b));
        }
        Ok(Table { depth, file_offsets: offsets })
    }
}

/// Eight big-endian bytes hold a `u64`.
pub proof fn lemma_be_len(v: nat, n: nat)
    ensures
        be_bytes(v, n).len() == n,
    decreases n,
{
    if n > 0 {
        lemma_be_len(v / 256, (n - 1) as nat);
    }
}

/// The serialized form of a table is unique.
pub proof fn lemma_table_raw_unique(a: Seq<u8>, b: Seq<u8>, d: nat, offsets: Seq<u64>)
    requires
        is_table_raw(a, d, offsets),
        is_table_raw(b, d, offsets),
    ensures
        a == b,
{
    assert forall|i: int| 0 <= i < a.len() implies a[i] == b[i] by {
        if i > 0 {
            let j = (i - 1) / 8;
            let r = (i - 1) % 8;
            assert(1 + 8 * j + r == i);
            assert(0 <= j < offsets.len());
            assert(a.subrange(1 + 8 * j, 9 + 8 * j) == b.subrange(1 + 8 * j, 9 + 8 * j));
            assert(a.subrange(1 + 8 * j, 9 + 8 * j)[r] == a[i]);
            assert(b.subrange(1 + 8 * j, 9 + 8 * j)[r] == b[i]);
        }
    }
    assert(a =~= b);
}

} // verus!
