//! Loading and searching a serialized index.
//!
//! `load` validates a byte image of the on-disk format: size, magic,
//! offsets, region order, and the CRC32 checksum, each failure a distinct
//! error. A loaded index answers two-stage searches: a coarse traversal
//! over the quantized arena, then an exact rerank over the full-precision
//! arena.

use vstd::prelude::*;
use vstd::bytes::{
    spec_u16_from_le_bytes, spec_u32_from_le_bytes, spec_u64_from_le_bytes, u16_from_le_bytes,
    u32_from_le_bytes, u64_from_le_bytes,
};
use crate::distance::{
    dot_product_u8_scalar, euclidean_distance, lemma_dot_u8_bound, spec_dot_u8, spec_sq_l2,
    DIST_COMP_MAX, MAX_DIM,
};
use crate::format::{crc32, crc32_of, spec_magic, Header, OnDiskNode, HEADER_SIZE};
use crate::hnsw::{
    count_true, lemma_count_true_le, lemma_count_true_update, make_false_vec, pair_less, pair_lt,
    sorted_insert, sorted_pairs,
};
use crate::quant::Quantizer;
use crate::RAW_COMP_MAX;

verus! {

/// Everything that can go wrong while loading an index image.
#[derive(Debug, Clone)]
pub enum StorageError {
    /// An underlying input or output failure, with its description.
    Io(String),
    /// The file does not start with the index magic.
    InvalidMagic,
    /// The file is shorter than the header, or a declared offset lies
    /// beyond the end of the file.
    FileTooSmall,
    /// The declared regions overlap or are out of order.
    OffsetInconsistent,
    /// The checksum over the payload does not match the header.
    ChecksumMismatch,
}

/// A loaded, validated index image.
pub struct MmapIndex {
    data: Vec<u8>,
}

/// The file is at least one header long.
pub open spec fn spec_len_ok(d: Seq<u8>) -> bool {
    d.len() >= HEADER_SIZE
}

/// The file starts with the index magic.
pub open spec fn spec_magic_ok(d: Seq<u8>) -> bool {
    d.subrange(0, 8) == spec_magic()
}

/// Declared dimension.
pub open spec fn sp_dimension(d: Seq<u8>) -> u32 {
    spec_u32_from_le_bytes(d.subrange(12, 16))
}

/// Declared element count.
pub open spec fn sp_num_elements(d: Seq<u8>) -> u32 {
    spec_u32_from_le_bytes(d.subrange(16, 20))
}

/// Declared entry point id.
pub open spec fn sp_entry_point(d: Seq<u8>) -> u32 {
    spec_u32_from_le_bytes(d.subrange(20, 24))
}

/// Declared top layer of the entry point.
pub open spec fn sp_max_layer(d: Seq<u8>) -> u16 {
    spec_u16_from_le_bytes(d.subrange(24, 26))
}

/// Declared upper-layer degree cap.
pub open spec fn sp_m(d: Seq<u8>) -> u32 {
    spec_u32_from_le_bytes(d.subrange(28, 32))
}

/// Declared ground-layer degree cap.
pub open spec fn sp_m0(d: Seq<u8>) -> u32 {
    spec_u32_from_le_bytes(d.subrange(32, 36))
}

/// Declared construction beam width.
pub open spec fn sp_ef_construction(d: Seq<u8>) -> u32 {
    spec_u32_from_le_bytes(d.subrange(36, 40))
}

/// Declared node-table offset.
pub open spec fn sp_nodes_offset(d: Seq<u8>) -> u64 {
    spec_u64_from_le_bytes(d.subrange(40, 48))
}

/// Declared quantized-arena offset.
pub open spec fn sp_q_offset(d: Seq<u8>) -> u64 {
    spec_u64_from_le_bytes(d.subrange(48, 56))
}

/// Declared full-precision-arena offset.
pub open spec fn sp_f_offset(d: Seq<u8>) -> u64 {
    spec_u64_from_le_bytes(d.subrange(56, 64))
}

/// Declared connection-arena offset.
pub open spec fn sp_c_offset(d: Seq<u8>) -> u64 {
    spec_u64_from_le_bytes(d.subrange(64, 72))
}

/// Declared checksum field.
pub open spec fn sp_checksum(d: Seq<u8>) -> u64 {
    spec_u64_from_le_bytes(d.subrange(72, 80))
}

/// Every declared offset lies inside the file.
pub open spec fn spec_offsets_in(d: Seq<u8>) -> bool {
    &&& (sp_nodes_offset(d) as int) < d.len()
    &&& (sp_q_offset(d) as int) < d.len()
    &&& (sp_f_offset(d) as int) < d.len()
    &&& (sp_c_offset(d) as int) < d.len()
}

/// The declared regions sit behind the header, in order, each large
/// enough for its contents, none overlapping the next.
pub open spec fn spec_regions_ok(d: Seq<u8>) -> bool {
    let n = sp_num_elements(d) as int;
    let dim = sp_dimension(d) as int;
    &&& HEADER_SIZE <= sp_nodes_offset(d) as int
    &&& sp_nodes_offset(d) + 8 * n <= sp_q_offset(d) as int
    &&& sp_q_offset(d) + n * dim <= sp_f_offset(d) as int
    &&& sp_f_offset(d) + 4 * n * dim <= sp_c_offset(d) as int
    &&& sp_c_offset(d) as int <= d.len()
}

/// The checksum field matches the CRC32 of everything after the header.
pub open spec fn spec_crc_ok(d: Seq<u8>) -> bool {
    sp_checksum(d) == crc32_of(d.subrange(HEADER_SIZE as int, d.len() as int)) as u64
}

/// Declared element count, as an integer.
pub open spec fn sp_n(d: Seq<u8>) -> int {
    sp_num_elements(d) as int
}

/// Declared dimension, as an integer.
pub open spec fn sp_d(d: Seq<u8>) -> int {
    sp_dimension(d) as int
}

/// One byte of the quantized arena: component `c` of vector `id`.
pub open spec fn sp_qcomp(d: Seq<u8>, id: int, c: int) -> u8 {
    d[sp_q_offset(d) + id * sp_d(d) + c]
}

/// The quantized row of vector `id`.
pub open spec fn sp_qrow(d: Seq<u8>, id: int) -> Seq<u8> {
    Seq::new(sp_d(d) as nat, |c: int| sp_qcomp(d, id, c))
}

/// One stored full-precision component, decoded from its 32-bit pattern
/// to a signed value.
pub open spec fn sp_fcomp(d: Seq<u8>, id: int, c: int) -> int {
    let off = sp_f_offset(d) + 4 * (id * sp_d(d) + c);
    let b = spec_u32_from_le_bytes(d.subrange(off, off + 4));
    if b < 0x8000_0000 {
        b as int
    } else {
        b - 0x1_0000_0000
    }
}

/// The stored full-precision row of vector `id`, as 64-bit values.
pub open spec fn sp_frow_i64(d: Seq<u8>, id: int) -> Seq<i64> {
    Seq::new(sp_d(d) as nat, |c: int| sp_fcomp(d, id, c) as i64)
}

/// A raw query brought to the normalized arena's scale.
pub open spec fn sp_scaled_query(q: Seq<i64>) -> Seq<i64> {
    Seq::new(q.len(), |c: int| (q[c] * 16384) as i64)
}

/// The exact rerank distance: squared Euclidean distance between the
/// scaled query and the stored full-precision row.
pub open spec fn sp_rerank_dist(d: Seq<u8>, q: Seq<i64>, id: int) -> int {
    spec_sq_l2(sp_scaled_query(q), sp_frow_i64(d, id))
}

/// Layer count of node record `i`.
pub open spec fn sp_node_lc(d: Seq<u8>, i: int) -> u8 {
    d[sp_nodes_offset(d) + 8 * i]
}

/// Connection-arena byte offset of node record `i`.
pub open spec fn sp_node_co(d: Seq<u8>, i: int) -> u32 {
    spec_u32_from_le_bytes(
        d.subrange(sp_nodes_offset(d) + 8 * i + 4, sp_nodes_offset(d) + 8 * i + 8),
    )
}

/// How many whole 32-bit words the connection arena holds.
pub open spec fn sp_conn_word_count(d: Seq<u8>) -> int {
    (d.len() - sp_c_offset(d)) / 4
}

/// Word `w` of the connection arena.
pub open spec fn sp_conn_word(d: Seq<u8>, w: int) -> u32 {
    spec_u32_from_le_bytes(d.subrange(sp_c_offset(d) + 4 * w, sp_c_offset(d) + 4 * w + 4))
}

/// The coarse ordering key of a database vector against a quantized
/// query: its negated dot product, shifted to be positive.
pub open spec fn sp_coarse_key(d: Seq<u8>, q: Seq<i8>, id: int) -> int {
    0x1_0000_0000 - spec_dot_u8(q, sp_qrow(d, id))
}

/// A fully valid index image.
pub open spec fn spec_file_ok(d: Seq<u8>) -> bool {
    &&& spec_len_ok(d)
    &&& spec_magic_ok(d)
    &&& spec_offsets_in(d)
    &&& spec_regions_ok(d)
    &&& spec_crc_ok(d)
}

impl MmapIndex {
    /// The raw bytes this index was loaded from.
    pub closed spec fn spec_data(&self) -> Seq<u8> {
        self.data@
    }

    /// A loaded index always holds a valid image.
    pub open spec fn wf(&self) -> bool {
        spec_file_ok(self.spec_data())
    }

    /// Validate a byte image and take ownership of it. Each defect is
    /// reported as the first failing check, in the order: file size,
    /// magic, offsets inside the file, region order, checksum.
    pub fn load(bytes: Vec<u8>) -> (r: Result<Self, StorageError>)
        ensures
            r.is_ok() <==> spec_file_ok(bytes@),
            r.is_ok() ==> r.unwrap().spec_data() == bytes@ && r.unwrap().wf(),
            !spec_len_ok(bytes@) ==> (r matches Err(StorageError::FileTooSmall)),
            spec_len_ok(bytes@) && !spec_magic_ok(bytes@) ==> (r matches Err(
                StorageError::InvalidMagic,
            )),
            spec_len_ok(bytes@) && spec_magic_ok(bytes@) && !spec_offsets_in(bytes@) ==> (r matches
                Err(StorageError::FileTooSmall)),
            spec_len_ok(bytes@) && spec_magic_ok(bytes@) && spec_offsets_in(bytes@)
                && !spec_regions_ok(bytes@) ==> (r matches Err(StorageError::OffsetInconsistent)),
            spec_len_ok(bytes@) && spec_magic_ok(bytes@) && spec_offsets_in(bytes@)
                && spec_regions_ok(bytes@) && !spec_crc_ok(bytes@) ==> (r matches Err(
                StorageError::ChecksumMismatch,
            )),
    {
        let len = bytes.len();
        if len < HEADER_SIZE {
            return Result::Err(StorageError::FileTooSmall);
        }
        let s = bytes.as_slice();
        if !(s[0] == 0x48 && s[1] == 0x4e && s[2] == 0x53 && s[3] == 0x57 && s[4] == 0x41 && s[5]
            == 0x4e && s[6] == 0x4e && s[7] == 0x31) {
            proof {
                if bytes@.subrange(0, 8) == spec_magic() {
                    assert(bytes@[0] == 0x48u8 && bytes@[1] == 0x4eu8 && bytes@[2] == 0x53u8
                        && bytes@[3] == 0x57u8 && bytes@[4] == 0x41u8 && bytes@[5] == 0x4eu8
                        && bytes@[6] == 0x4eu8 && bytes@[7] == 0x31u8) by {
                        assert(bytes@.subrange(0, 8)[0] == bytes@[0]);
                        assert(bytes@.subrange(0, 8)[1] == bytes@[1]);
                        assert(bytes@.subrange(0, 8)[2] == bytes@[2]);
                        assert(bytes@.subrange(0, 8)[3] == bytes@[3]);
                        assert(bytes@.subrange(0, 8)[4] == bytes@[4]);
                        assert(bytes@.subrange(0, 8)[5] == bytes@[5]);
                        assert(bytes@.subrange(0, 8)[6] == bytes@[6]);
                        assert(bytes@.subrange(0, 8)[7] == bytes@[7]);
                    }
                }
            }
            return Result::Err(StorageError::InvalidMagic);
        }
        proof {
            assert(bytes@.subrange(0, 8) =~= spec_magic());
        }
        let num_elements = u32_from_le_bytes(&s[16..20]);
        let dimension = u32_from_le_bytes(&s[12..16]);
        let nodes_offset = u64_from_le_bytes(&s[40..48]);
        let q_offset = u64_from_le_bytes(&s[48..56]);
        let f_offset = u64_from_le_bytes(&s[56..64]);
        let c_offset = u64_from_le_bytes(&s[64..72]);
        let checksum = u64_from_le_bytes(&s[72..80]);
        if !(nodes_offset < len as u64 && q_offset < len as u64 && f_offset < len as u64
            && c_offset < len as u64) {
            return Result::Err(StorageError::FileTooSmall);
        }
        let n128 = num_elements as u128;
        let d128 = dimension as u128;
        proof {
            assert(n128 * d128 < 0x1_0000_0000_0000_0000u128 && 4 * n128 * d128
                < 0x4_0000_0000_0000_0000u128) by (nonlinear_arith)
                requires
                    n128 < 0x1_0000_0000u128,
                    d128 < 0x1_0000_0000u128,
            ;
        }
        if !(HEADER_SIZE as u128 <= nodes_offset as u128 && nodes_offset as u128 + 8 * n128
            <= q_offset as u128 && q_offset as u128 + n128 * d128 <= f_offset as u128
            && f_offset as u128 + 4 * n128 * d128 <= c_offset as u128 && c_offset as u128
            <= len as u128) {
            return Result::Err(StorageError::OffsetInconsistent);
        }
        let computed = crc32(&s[HEADER_SIZE..len]);
        if checksum != computed as u64 {
            return Result::Err(StorageError::ChecksumMismatch);
        }
        Result::Ok(MmapIndex { data: bytes })
    }

    /// Decode the fixed header.
    pub fn header(&self) -> (h: Header)
        requires
            self.wf(),
        ensures
            h.magic@ == self.spec_data().subrange(0, 8),
            h.version == spec_u32_from_le_bytes(self.spec_data().subrange(8, 12)),
            h.dimension == sp_dimension(self.spec_data()),
            h.num_elements == sp_num_elements(self.spec_data()),
            h.entry_point_id == sp_entry_point(self.spec_data()),
            h.max_layer == sp_max_layer(self.spec_data()),
            h.m == sp_m(self.spec_data()),
            h.m0 == sp_m0(self.spec_data()),
            h.ef_construction == sp_ef_construction(self.spec_data()),
            h.nodes_offset == sp_nodes_offset(self.spec_data()),
            h.quantized_vectors_offset == sp_q_offset(self.spec_data()),
            h.vectors_offset == sp_f_offset(self.spec_data()),
            h.connections_offset == sp_c_offset(self.spec_data()),
            h.checksum == sp_checksum(self.spec_data()),
    {
        let s = self.data.as_slice();
        let magic: [u8; 8] = [s[0], s[1], s[2], s[3], s[4], s[5], s[6], s[7]];
        proof {
            assert(magic@ =~= self.spec_data().subrange(0, 8));
        }
        Header {
            magic,
            version: u32_from_le_bytes(&s[8..12]),
            dimension: u32_from_le_bytes(&s[12..16]),
            num_elements: u32_from_le_bytes(&s[16..20]),
            entry_point_id: u32_from_le_bytes(&s[20..24]),
            max_layer: u16_from_le_bytes(&s[24..26]),
            m: u32_from_le_bytes(&s[28..32]),
            m0: u32_from_le_bytes(&s[32..36]),
            ef_construction: u32_from_le_bytes(&s[36..40]),
            nodes_offset: u64_from_le_bytes(&s[40..48]),
            quantized_vectors_offset: u64_from_le_bytes(&s[48..56]),
            vectors_offset: u64_from_le_bytes(&s[56..64]),
            connections_offset: u64_from_le_bytes(&s[64..72]),
            checksum: u64_from_le_bytes(&s[72..80]),
        }
    }

    /// Decode the whole node table.
    #[verifier::loop_isolation(false)]
    pub fn nodes(&self) -> (r: Vec<OnDiskNode>)
        requires
            self.wf(),
        ensures
            r@.len() == sp_n(self.spec_data()),
            forall|i: int|
                0 <= i < r@.len() ==> (#[trigger] r@[i]).layer_count == sp_node_lc(
                    self.spec_data(),
                    i,
                ) && r@[i].connections_offset == sp_node_co(self.spec_data(), i),
    {
        let len = self.data.len();
        let n32 = u32_from_le_bytes(&self.data.as_slice()[16..20]);
        let base64 = u64_from_le_bytes(&self.data.as_slice()[40..48]);
        proof {
            assert(n32 == sp_num_elements(self.spec_data()));
            assert(base64 == sp_nodes_offset(self.spec_data()));
            assert((base64 as int) < len as int);
            assert(base64 + 8 * (n32 as int) <= sp_q_offset(self.spec_data()) as int);
            assert((sp_q_offset(self.spec_data()) as int) < len as int);
        }
        let n = n32 as usize;
        let base = base64 as usize;
        let mut r: Vec<OnDiskNode> = Vec::new();
        let mut i: usize = 0;
        while i < n
            invariant
                i <= n,
                n == sp_n(self.spec_data()),
                base == sp_nodes_offset(self.spec_data()),
                base + 8 * n < self.spec_data().len(),
                r@.len() == i,
                forall|j: int|
                    0 <= j < i ==> (#[trigger] r@[j]).layer_count == sp_node_lc(
                        self.spec_data(),
                        j,
                    ) && r@[j].connections_offset == sp_node_co(self.spec_data(), j),
            decreases n - i,
        {
            proof {
                assert(8 * (i as int) + 8 <= 8 * (n as int)) by (nonlinear_arith)
                    requires
                        i < n,
                ;
            }
            let s = self.data.as_slice();
            let off = base + 8 * i;
            let lc = s[off];
            let co = u32_from_le_bytes(&s[off + 4..off + 8]);
            r.push(OnDiskNode { layer_count: lc, connections_offset: co });
            i = i + 1;
        }
        r
    }

    /// Decode the whole connection arena into words.
    #[verifier::loop_isolation(false)]
    pub fn connections(&self) -> (r: Vec<u32>)
        requires
            self.wf(),
        ensures
            r@.len() == sp_conn_word_count(self.spec_data()),
            forall|w: int|
                0 <= w < r@.len() ==> (#[trigger] r@[w]) == sp_conn_word(self.spec_data(), w),
    {
        let len = self.data.len();
        let base = u64_from_le_bytes(&self.data.as_slice()[64..72]) as usize;
        let count = (len - base) / 4;
        let mut r: Vec<u32> = Vec::new();
        let mut w: usize = 0;
        while w < count
            invariant
                w <= count,
                count == sp_conn_word_count(self.spec_data()),
                base == sp_c_offset(self.spec_data()),
                base + 4 * count <= len,
                r@.len() == w,
                forall|j: int|
                    0 <= j < w ==> (#[trigger] r@[j]) == sp_conn_word(self.spec_data(), j),
            decreases count - w,
        {
            proof {
                assert(4 * (w as int) + 4 <= 4 * (count as int)) by (nonlinear_arith)
                    requires
                        w < count,
                ;
            }
            let s = self.data.as_slice();
            let word = u32_from_le_bytes(&s[base + 4 * w..base + 4 * w + 4]);
            r.push(word);
            w = w + 1;
        }
        r
    }

    /// Copy out the quantized row of one vector.
    #[verifier::loop_isolation(false)]
    fn qrow(&self, id: usize) -> (r: Vec<u8>)
        requires
            self.wf(),
            id < sp_n(self.spec_data()),
        ensures
            r@ == sp_qrow(self.spec_data(), id as int),
    {
        let len = self.data.len();
        let dim32 = u32_from_le_bytes(&self.data.as_slice()[12..16]);
        let n32 = u32_from_le_bytes(&self.data.as_slice()[16..20]);
        let q_off64 = u64_from_le_bytes(&self.data.as_slice()[48..56]);
        proof {
            assert(dim32 == sp_dimension(self.spec_data()));
            assert(n32 == sp_num_elements(self.spec_data()));
            assert(q_off64 == sp_q_offset(self.spec_data()));
            assert((q_off64 as int) < len as int);
            assert(q_off64 + (n32 as int) * (dim32 as int) <= sp_f_offset(self.spec_data()) as int);
            assert((sp_f_offset(self.spec_data()) as int) < len as int);
            lemma_row_in_region(id as int, n32 as int, dim32 as int);
        }
        let dim = dim32 as usize;
        let q_off = q_off64 as usize;
        let base = q_off + id * dim;
        let mut r: Vec<u8> = Vec::new();
        let mut c: usize = 0;
        while c < dim
            invariant
                c <= dim,
                r@.len() == c,
                base == sp_q_offset(self.spec_data()) + id * sp_d(self.spec_data()),
                base + dim <= self.spec_data().len(),
                dim == sp_d(self.spec_data()),
                forall|j: int|
                    0 <= j < c ==> (#[trigger] r@[j]) == sp_qcomp(self.spec_data(), id as int, j),
            decreases dim - c,
        {
            r.push(self.data.as_slice()[base + c]);
            c = c + 1;
        }
        proof {
            assert(r@ =~= sp_qrow(self.spec_data(), id as int));
        }
        r
    }

    /// Copy out the stored full-precision row of one vector, decoded to
    /// signed fixed-point components.
    #[verifier::loop_isolation(false)]
    pub fn get_vector(&self, id: usize) -> (r: Vec<i32>)
        requires
            self.wf(),
            id < sp_n(self.spec_data()),
        ensures
            r@.len() == sp_d(self.spec_data()),
            forall|c: int|
                0 <= c < r@.len() ==> (#[trigger] r@[c]) as int == sp_fcomp(
                    self.spec_data(),
                    id as int,
                    c,
                ),
    {
        let len = self.data.len();
        let dim32 = u32_from_le_bytes(&self.data.as_slice()[12..16]);
        let n32 = u32_from_le_bytes(&self.data.as_slice()[16..20]);
        let f_off64 = u64_from_le_bytes(&self.data.as_slice()[56..64]);
        proof {
            assert(dim32 == sp_dimension(self.spec_data()));
            assert(n32 == sp_num_elements(self.spec_data()));
            assert(f_off64 == sp_f_offset(self.spec_data()));
            assert((f_off64 as int) < len as int);
            assert(f_off64 + 4 * (n32 as int) * (dim32 as int) <= sp_c_offset(
                self.spec_data(),
            ) as int);
            assert((sp_c_offset(self.spec_data()) as int) <= len as int);
            lemma_row_in_region(id as int, n32 as int, dim32 as int);
            assert(4 * ((id as int) * (dim32 as int) + (dim32 as int)) <= 4 * ((n32 as int) * (
            dim32 as int))) by (nonlinear_arith)
                requires
                    (id as int) * (dim32 as int) + (dim32 as int) <= (n32 as int) * (dim32 as int),
            ;
            assert(4 * (n32 as int) * (dim32 as int) == 4 * ((n32 as int) * (dim32 as int)))
                by (nonlinear_arith);
        }
        let dim = dim32 as usize;
        let f_off = f_off64 as usize;
        let mut r: Vec<i32> = Vec::new();
        let mut c: usize = 0;
        while c < dim
            invariant
                c <= dim,
                r@.len() == c,
                dim == sp_d(self.spec_data()),
                f_off == sp_f_offset(self.spec_data()),
                id < sp_n(self.spec_data()),
                f_off + 4 * ((id as int) * (dim as int) + (dim as int)) <= self.spec_data().len(),
                forall|j: int|
                    0 <= j < c ==> (#[trigger] r@[j]) as int == sp_fcomp(
                        self.spec_data(),
                        id as int,
                        j,
                    ),
            decreases dim - c,
        {
            proof {
                assert(4 * ((id as int) * (dim as int) + (c as int)) + 4 <= 4 * ((id as int) * (
                dim as int) + (dim as int))) by (nonlinear_arith)
                    requires
                        c < dim,
                ;
            }
            let s2 = self.data.as_slice();
            let off = f_off + 4 * (id * dim + c);
            let word = u32_from_le_bytes(&s2[off..off + 4]);
            let val: i32 = if word < 0x8000_0000 {
                word as i32
            } else {
                ((word as i64) - 0x1_0000_0000i64) as i32
            };
            r.push(val);
            c = c + 1;
        }
        r
    }

    /// The coarse key of one database vector against a quantized query:
    /// negated quantized dot product, shifted positive so that smaller
    /// still means closer.
    fn coarse_key(&self, q: &Vec<i8>, id: usize) -> (key: u128)
        requires
            self.wf(),
            id < sp_n(self.spec_data()),
            q@.len() == sp_d(self.spec_data()),
            sp_d(self.spec_data()) <= MAX_DIM,
        ensures
            key == sp_coarse_key(self.spec_data(), q@, id as int),
    {
        let row = self.qrow(id);
        let negdot = dot_product_u8_scalar(q.as_slice(), row.as_slice());
        proof {
            lemma_dot_u8_bound(q@, row@);
        }
        (0x1_0000_0000i64 + negdot) as u128
    }

    /// The exact rerank distance of one database vector against the raw
    /// query, brought to the arena's scale.
    #[verifier::loop_isolation(false)]
    fn rerank_dist(&self, query: &Vec<i64>, id: usize) -> (dist: u128)
        requires
            self.wf(),
            id < sp_n(self.spec_data()),
            query@.len() == sp_d(self.spec_data()),
            sp_d(self.spec_data()) <= MAX_DIM,
            forall|c: int|
                0 <= c < query@.len() ==> -RAW_COMP_MAX <= #[trigger] query@[c] <= RAW_COMP_MAX,
        ensures
            dist == sp_rerank_dist(self.spec_data(), query@, id as int),
    {
        let stored = self.get_vector(id);
        let dim = stored.len();
        let mut stored64: Vec<i64> = Vec::new();
        let mut scaled: Vec<i64> = Vec::new();
        let mut c: usize = 0;
        while c < dim
            invariant
                c <= dim,
                dim == sp_d(self.spec_data()),
                query@.len() == dim,
                stored@.len() == dim,
                forall|j: int|
                    0 <= j < dim ==> (#[trigger] stored@[j]) as int == sp_fcomp(
                        self.spec_data(),
                        id as int,
                        j,
                    ),
                stored64@.len() == c,
                scaled@.len() == c,
                forall|j: int|
                    0 <= j < c ==> (#[trigger] stored64@[j]) == sp_frow_i64(
                        self.spec_data(),
                        id as int,
                    )[j],
                forall|j: int|
                    0 <= j < c ==> (#[trigger] scaled@[j]) == sp_scaled_query(query@)[j],
                forall|j: int|
                    0 <= j < c ==> -DIST_COMP_MAX <= (#[trigger] scaled@[j]) <= DIST_COMP_MAX,
                forall|j: int|
                    0 <= j < c ==> -DIST_COMP_MAX <= (#[trigger] stored64@[j]) <= DIST_COMP_MAX,
            decreases dim - c,
        {
            stored64.push(stored[c] as i64);
            scaled.push(query[c] * 16384);
            c = c + 1;
        }
        let d = euclidean_distance(scaled.as_slice(), stored64.as_slice());
        proof {
            assert(scaled@ =~= sp_scaled_query(query@));
            assert(stored64@ =~= sp_frow_i64(self.spec_data(), id as int));
        }
        d
    }

    /// Coarse beam search on one layer over the quantized arena, walking
    /// connection blocks out of the arena with every read bounds-checked:
    /// a malformed block simply ends the walk.
    #[verifier::loop_isolation(false)]
    #[verifier::rlimit(100)]
    fn search_layer_ef(
        &self,
        conn: &Vec<u32>,
        tbl: &Vec<OnDiskNode>,
        q: &Vec<i8>,
        entry: usize,
        ef: usize,
        level: usize,
    ) -> (w: Vec<(u128, usize)>)
        requires
            self.wf(),
            entry < sp_n(self.spec_data()),
            ef >= 1,
            q@.len() == sp_d(self.spec_data()),
            sp_d(self.spec_data()) <= MAX_DIM,
            conn@.len() == sp_conn_word_count(self.spec_data()),
            forall|x: int|
                0 <= x < conn@.len() ==> (#[trigger] conn@[x]) == sp_conn_word(
                    self.spec_data(),
                    x,
                ),
            tbl@.len() == sp_n(self.spec_data()),
        ensures
            1 <= w@.len() <= ef,
            sorted_pairs(w@),
            forall|i: int|
                0 <= i < w@.len() ==> (#[trigger] w@[i]).1 < sp_n(self.spec_data()) && w@[i].0
                    == sp_coarse_key(self.spec_data(), q@, w@[i].1 as int),
    {
        let n = tbl.len();
        let mut visited = make_false_vec(n);
        let k0 = self.coarse_key(q, entry);
        let mut cand: Vec<(u128, usize)> = Vec::new();
        cand.push((k0, entry));
        let mut w: Vec<(u128, usize)> = Vec::new();
        w.push((k0, entry));
        visited[entry] = true;
        proof {
            lemma_count_true_le(visited@);
        }
        while cand.len() > 0 && (w.len() < ef || !pair_less(w[w.len() - 1], cand[0]))
            invariant
                visited@.len() == n,
                count_true(visited@) <= n,
                sorted_pairs(cand@),
                sorted_pairs(w@),
                1 <= w@.len() <= ef,
                forall|i: int|
                    0 <= i < cand@.len() ==> (#[trigger] cand@[i]).1 < n && cand@[i].0
                        == sp_coarse_key(self.spec_data(), q@, cand@[i].1 as int),
                forall|i: int|
                    0 <= i < w@.len() ==> (#[trigger] w@[i]).1 < n && w@[i].0 == sp_coarse_key(
                        self.spec_data(),
                        q@,
                        w@[i].1 as int,
                    ),
                forall|i: int| 0 <= i < cand@.len() ==> visited@[(#[trigger] cand@[i]).1 as int],
                forall|i: int| 0 <= i < w@.len() ==> visited@[(#[trigger] w@[i]).1 as int],
            decreases 2 * (n - count_true(visited@)) + cand@.len(),
        {
            let c = cand.remove(0);
            let c_id = c.1;
            let lc = tbl[c_id].layer_count as usize;
            if lc > level {
                let total: u64 = conn.len() as u64;
                let data_len = self.data.len();
                proof {
                    assert(self.spec_data().len() == data_len as int);
                    assert(self.spec_data().len() - sp_c_offset(self.spec_data()) as int
                        <= 0xFFFF_FFFF_FFFF_FFFF);
                    vstd::arithmetic::div_mod::lemma_div_is_ordered(
                        self.spec_data().len() - sp_c_offset(self.spec_data()) as int,
                        0xFFFF_FFFF_FFFF_FFFF,
                        4,
                    );
                    assert(total < 0x4000_0000_0000_0000u64);
                }
                let mut idx: u64 = (tbl[c_id].connections_offset as u64) / 4;
                let mut l: usize = 0;
                let mut ok = true;
                while l < level
                    invariant
                        l <= level,
                        idx <= total + 0x1_0000_0001u64,
                        total == conn@.len(),
                        total < 0x4000_0000_0000_0000u64,
                    decreases level - l,
                {
                    if ok && idx < total {
                        let cnt = conn[idx as usize];
                        idx = idx + 1 + (cnt as u64);
                    } else {
                        ok = false;
                    }
                    l = l + 1;
                }
                if ok && idx < total {
                    let cnt = conn[idx as usize] as u64;
                    let ghost g0 = 2 * (n - count_true(visited@)) + cand@.len();
                    let mut j: u64 = 0;
                    while j < cnt && idx + 1 + j < total
                        invariant
                            j <= cnt,
                            idx < total,
                            idx + 1 + j <= total,
                            total == conn@.len(),
                            cnt < 0x1_0000_0000u64,
                            visited@.len() == n,
                            count_true(visited@) <= n,
                            sorted_pairs(cand@),
                            sorted_pairs(w@),
                            1 <= w@.len() <= ef,
                            forall|i: int|
                                0 <= i < cand@.len() ==> (#[trigger] cand@[i]).1 < n && cand@[i].0
                                    == sp_coarse_key(self.spec_data(), q@, cand@[i].1 as int),
                            forall|i: int|
                                0 <= i < w@.len() ==> (#[trigger] w@[i]).1 < n && w@[i].0
                                    == sp_coarse_key(self.spec_data(), q@, w@[i].1 as int),
                            forall|i: int|
                                0 <= i < cand@.len() ==> visited@[(#[trigger] cand@[i]).1 as int],
                            forall|i: int|
                                0 <= i < w@.len() ==> visited@[(#[trigger] w@[i]).1 as int],
                            2 * (n - count_true(visited@)) + cand@.len() <= g0,
                        decreases cnt - j,
                    {
                        let nb = conn[(idx + 1 + j) as usize] as usize;
                        if nb < n {
                            if !visited[nb] {
                                let key = self.coarse_key(q, nb);
                                let wlen = w.len();
                                let accept = wlen < ef || pair_less((key, nb), w[wlen - 1]);
                                if accept {
                                    let ghost prev_cand = cand@;
                                    let ghost prev_w = w@;
                                    sorted_insert(&mut cand, (key, nb));
                                    sorted_insert(&mut w, (key, nb));
                                    proof {
                                        assert forall|i: int|
                                            0 <= i < cand@.len() implies (#[trigger] cand@[i]).1
                                            < n && cand@[i].0 == sp_coarse_key(
                                            self.spec_data(),
                                            q@,
                                            cand@[i].1 as int,
                                        ) && (visited@[cand@[i].1 as int] || cand@[i].1 == nb) by {
                                            if cand@[i] != ((key, nb)) {
                                                let kk = choose|kk: int|
                                                    0 <= kk < prev_cand.len() && prev_cand[kk]
                                                        == cand@[i];
                                            }
                                        }
                                        assert forall|i: int|
                                            0 <= i < w@.len() implies (#[trigger] w@[i]).1 < n
                                            && w@[i].0 == sp_coarse_key(
                                            self.spec_data(),
                                            q@,
                                            w@[i].1 as int,
                                        ) && (visited@[w@[i].1 as int] || w@[i].1 == nb) by {
                                            if w@[i] != ((key, nb)) {
                                                let kk = choose|kk: int|
                                                    0 <= kk < prev_w.len() && prev_w[kk] == w@[i];
                                            }
                                        }
                                    }
                                    if w.len() > ef {
                                        w.pop();
                                    }
                                }
                                proof {
                                    lemma_count_true_update(visited@, nb as int);
                                }
                                visited[nb] = true;
                                proof {
                                    lemma_count_true_le(visited@);
                                }
                            }
                        }
                        j = j + 1;
                    }
                }
            }
        }
        w
    }

    /// Two-stage nearest-neighbor query: quantize the query, zoom down
    /// the layers greedily, beam-search the ground layer with width
    /// `max(ef_search, k)` over quantized distance, then rerank the
    /// candidates by exact distance against the stored full-precision
    /// vectors. Returns up to `k` pairs of id and exact distance,
    /// ascending by distance with ties broken by lower id. An index with
    /// no elements, a dimension beyond the supported ceiling, or an entry
    /// point outside the node table yields an empty result.
    #[verifier::loop_isolation(false)]
    #[verifier::rlimit(100)]
    pub fn search(&self, query: &Vec<i64>, k: usize, ef_search: usize) -> (results: Vec<
        (usize, u128),
    >)
        requires
            self.wf(),
            query@.len() == sp_d(self.spec_data()),
            forall|c: int|
                0 <= c < query@.len() ==> -RAW_COMP_MAX <= #[trigger] query@[c] <= RAW_COMP_MAX,
        ensures
            results@.len() <= k,
            sp_n(self.spec_data()) == 0 ==> results@.len() == 0,
            forall|i: int|
                0 <= i < results@.len() ==> (#[trigger] results@[i]).0 < sp_n(self.spec_data())
                    && results@[i].1 as int == sp_rerank_dist(
                    self.spec_data(),
                    query@,
                    results@[i].0 as int,
                ),
            forall|i: int, j: int|
                0 <= i < j < results@.len() ==> pair_lt(
                    (results@[i].1, results@[i].0),
                    (results@[j].1, results@[j].0),
                ),
            sp_n(self.spec_data()) > 0 && k > 0 && sp_d(self.spec_data()) <= MAX_DIM
                && (sp_entry_point(self.spec_data()) as int) < sp_n(self.spec_data())
                ==> results@.len() >= 1,
    {
        let h = self.header();
        let n = h.num_elements as usize;
        if n == 0 {
            return Vec::new();
        }
        if k == 0 {
            return Vec::new();
        }
        let dim = h.dimension as usize;
        if dim > MAX_DIM {
            return Vec::new();
        }
        let entry = h.entry_point_id as usize;
        if entry >= n {
            return Vec::new();
        }
        let qq = Quantizer::quantize_query(query);
        let conn = self.connections();
        let tbl = self.nodes();
        let max_layer = h.max_layer as usize;
        let mut curr = entry;
        let mut level = max_layer;
        while level > 0
            invariant
                curr < n,
            decreases level,
        {
            let res = self.search_layer_ef(&conn, &tbl, &qq, curr, 1, level);
            curr = res[0].1;
            level = level - 1;
        }
        let ef = if ef_search > k {
            ef_search
        } else {
            k
        };
        let cand = self.search_layer_ef(&conn, &tbl, &qq, curr, ef, 0);
        proof {
            assert forall|j1: int, j2: int| 0 <= j1 < j2 < cand@.len() implies cand@[j1].1
                != cand@[j2].1 by {
                assert(pair_lt(cand@[j1], cand@[j2]));
                if cand@[j1].1 == cand@[j2].1 {
                    assert(cand@[j1].0 == cand@[j2].0);
                }
            }
        }
        let m = cand.len();
        let mut rr: Vec<(u128, usize)> = Vec::new();
        let mut t: usize = 0;
        while t < m
            invariant
                t <= m,
                m == cand@.len(),
                rr@.len() == t,
                sorted_pairs(rr@),
                forall|p: int|
                    0 <= p < rr@.len() ==> exists|jj: int|
                        0 <= jj < t && cand@[jj].1 == (#[trigger] rr@[p]).1,
                forall|p: int|
                    0 <= p < rr@.len() ==> (#[trigger] rr@[p]).1 < n && rr@[p].0 as int
                        == sp_rerank_dist(self.spec_data(), query@, rr@[p].1 as int),
            decreases m - t,
        {
            let id = cand[t].1;
            let dist = self.rerank_dist(query, id);
            proof {
                assert forall|p: int| 0 <= p < rr@.len() implies (#[trigger] rr@[p]).1 != id by {
                    let jj = choose|jj: int| 0 <= jj < t && cand@[jj].1 == rr@[p].1;
                    assert(cand@[jj].1 != cand@[t as int].1);
                }
            }
            let ghost prev_rr = rr@;
            sorted_insert(&mut rr, (dist, id));
            proof {
                assert forall|p: int| 0 <= p < rr@.len() implies (exists|jj: int|
                    0 <= jj < t + 1 && cand@[jj].1 == (#[trigger] rr@[p]).1) && rr@[p].1 < n
                    && rr@[p].0 as int == sp_rerank_dist(
                    self.spec_data(),
                    query@,
                    rr@[p].1 as int,
                ) by {
                    if rr@[p] == ((dist, id)) {
                        assert(cand@[t as int].1 == rr@[p].1);
                    } else {
                        let pp = choose|pp: int| 0 <= pp < prev_rr.len() && prev_rr[pp] == rr@[p];
                        let jj = choose|jj: int| 0 <= jj < t && cand@[jj].1 == prev_rr[pp].1;
                        assert(cand@[jj].1 == rr@[p].1);
                    }
                }
            }
            t = t + 1;
        }
        let take_n = if rr.len() < k {
            rr.len()
        } else {
            k
        };
        let mut results: Vec<(usize, u128)> = Vec::new();
        let mut o: usize = 0;
        while o < take_n
            invariant
                o <= take_n,
                take_n <= rr@.len(),
                results@.len() == o,
                forall|i: int|
                    0 <= i < o ==> #[trigger] results@[i] == (rr@[i].1, rr@[i].0),
            decreases take_n - o,
        {
            let e = rr[o];
            results.push((e.1, e.0));
            o = o + 1;
        }
        results
    }
}

/// Every node contributes at least one word to the connection arena.
proof fn lemma_conn_words_at_least(g: crate::hnsw::HNSW, i: int)
    requires
        0 <= i <= g.nodes@.len(),
        forall|j: int| 0 <= j < g.nodes@.len() ==> g.nodes@[j].connections@.len() >= 1,
    ensures
        crate::format::spec_conn_words_upto(g, i).len() >= i,
    decreases i,
{
    if i > 0 {
        lemma_conn_words_at_least(g, i - 1);
        assert(crate::format::spec_conn_words_node(g, i - 1).len() >= 1) by {
            let lm = g.nodes@[i - 1].connections@.len() as int;
            assert(crate::format::spec_conn_words_layers(g, i - 1, lm) == crate::format::spec_conn_words_layers(
                g,
                i - 1,
                lm - 1,
            ) + crate::format::spec_conn_block(g, i - 1, lm - 1));
        }
    }
}

/// Round trip: the byte image `save` produces is exactly what `load`
/// accepts, and the loader's view of it gives back the graph's shape: its
/// element count, dimension, entry point, entry layer, parameters, and a
/// checksum that matches the payload. Loading a saved graph therefore
/// succeeds, and every search on the loaded image is a function of these
/// bytes alone, so two loads of one image answer alike.
pub proof fn lemma_save_load_round_trip(g: crate::hnsw::HNSW)
    requires
        g.wf(),
        g.spec_save_bounds(),
        g.nodes@.len() > 0,
    ensures
        spec_file_ok(crate::format::spec_save(g)),
        sp_n(crate::format::spec_save(g)) == g.nodes@.len(),
        sp_d(crate::format::spec_save(g)) == g.spec_dim(),
        sp_entry_point(crate::format::spec_save(g)) as int == g.entry_point.unwrap() as int,
        sp_max_layer(crate::format::spec_save(g)) as int == g.nodes@[g.entry_point.unwrap() as int].layer_max as int,
        sp_m(crate::format::spec_save(g)) as int == g.m as int,
        sp_m0(crate::format::spec_save(g)) as int == g.m0 as int,
        sp_ef_construction(crate::format::spec_save(g)) as int == g.ef_construction as int,
        sp_nodes_offset(crate::format::spec_save(g)) == HEADER_SIZE as u64,
        sp_q_offset(crate::format::spec_save(g)) as int == crate::format::spec_q_offset(g),
        sp_f_offset(crate::format::spec_save(g)) as int == crate::format::spec_f_offset(g),
        sp_c_offset(crate::format::spec_save(g)) as int == crate::format::spec_c_offset(g),
        sp_checksum(crate::format::spec_save(g)) == crc32_of(crate::format::spec_payload(g)) as u64,
        crate::format::spec_save(g).subrange(
            HEADER_SIZE as int,
            crate::format::spec_save(g).len() as int,
        ) == crate::format::spec_payload(g),
        forall|i: int, c: int|
            #![trigger sp_qcomp(crate::format::spec_save(g), i, c)]
            0 <= i < g.nodes@.len() && 0 <= c < g.spec_dim() ==> sp_qcomp(
                crate::format::spec_save(g),
                i,
                c,
            ) == crate::format::spec_qrow(g, i)[c],
        forall|i: int|
            #![trigger sp_node_lc(crate::format::spec_save(g), i)]
            0 <= i < g.nodes@.len() ==> sp_node_lc(crate::format::spec_save(g), i) as int
                == g.nodes@[i].layer_max + 1,
{
    vstd::bytes::lemma_auto_spec_u16_to_from_le_bytes();
    vstd::bytes::lemma_auto_spec_u32_to_from_le_bytes();
    vstd::bytes::lemma_auto_spec_u64_to_from_le_bytes();
    let n = g.nodes@.len() as int;
    let dim = g.spec_dim();
    let entry = g.entry_point.unwrap() as int;
    let pay = crate::format::spec_payload(g);
    let crc = crc32_of(pay) as u64;
    let h = crate::format::spec_header_bytes(g, crc);
    let file = crate::format::spec_save(g);
    assert(g.node_wf(entry));
    assert(g.node_wf(0));
    assert(g.vector_ok(0));
    assert(h.len() == 256);
    assert(file == h + pay);
    assert(file.len() == 256 + pay.len());
    // the payload is everything after the header
    assert(file.subrange(256, file.len() as int) =~= pay);
    // field subranges of the file are the header's pieces
    assert(file.subrange(0, 8) =~= crate::format::spec_magic());
    assert(file.subrange(8, 12) =~= vstd::bytes::spec_u32_to_le_bytes(1u32));
    assert(file.subrange(12, 16) =~= vstd::bytes::spec_u32_to_le_bytes(dim as u32));
    assert(file.subrange(16, 20) =~= vstd::bytes::spec_u32_to_le_bytes(n as u32));
    assert(file.subrange(20, 24) =~= vstd::bytes::spec_u32_to_le_bytes(entry as u32));
    assert(file.subrange(24, 26) =~= vstd::bytes::spec_u16_to_le_bytes(
        g.nodes@[entry].layer_max as u16,
    ));
    assert(file.subrange(28, 32) =~= vstd::bytes::spec_u32_to_le_bytes(g.m as u32));
    assert(file.subrange(32, 36) =~= vstd::bytes::spec_u32_to_le_bytes(g.m0 as u32));
    assert(file.subrange(36, 40) =~= vstd::bytes::spec_u32_to_le_bytes(g.ef_construction as u32));
    assert(file.subrange(40, 48) =~= vstd::bytes::spec_u64_to_le_bytes(HEADER_SIZE as u64));
    assert(file.subrange(48, 56) =~= vstd::bytes::spec_u64_to_le_bytes(
        crate::format::spec_q_offset(g) as u64,
    ));
    assert(file.subrange(56, 64) =~= vstd::bytes::spec_u64_to_le_bytes(
        crate::format::spec_f_offset(g) as u64,
    ));
    assert(file.subrange(64, 72) =~= vstd::bytes::spec_u64_to_le_bytes(
        crate::format::spec_c_offset(g) as u64,
    ));
    assert(file.subrange(72, 80) =~= vstd::bytes::spec_u64_to_le_bytes(crc));
    // lengths of the payload sections
    crate::format::lemma_node_table_len(g, n);
    assert(g.vectors_wf()) by {
        assert forall|i: int| 0 <= i < g.nodes@.len() implies g.vector_ok(i) by {
            assert(g.node_wf(i));
        }
    }
    crate::format::lemma_qarena_len(g, n);
    crate::format::lemma_farena_len(g, n);
    crate::format::lemma_words_bytes_len(
        crate::format::spec_conn_words(g),
        crate::format::spec_conn_words(g).len() as int,
    );
    crate::format::lemma_align32_bounds(HEADER_SIZE + 8 * n);
    crate::format::lemma_align32_bounds(crate::format::spec_q_offset(g) + n * dim);
    assert(n * dim >= 0) by (nonlinear_arith)
        requires
            n >= 0,
            dim >= 0,
    ;
    assert(4 * n * dim == 4 * (n * dim)) by (nonlinear_arith);
    assert forall|j: int| 0 <= j < g.nodes@.len() implies g.nodes@[j].connections@.len() >= 1 by {
        assert(g.node_wf(j));
    }
    lemma_conn_words_at_least(g, n);
    assert(pay.len() == crate::format::spec_c_offset(g) - 256 + 4 * crate::format::spec_conn_words(
        g,
    ).len());
    // the declared offsets lie inside the file and in order
    assert(spec_regions_ok(file));
    assert(spec_offsets_in(file));
    assert(spec_crc_ok(file));
    assert(spec_file_ok(file));
    let nt = crate::format::spec_node_table_upto(g, n);
    let z1 = crate::format::spec_zeros(
        crate::format::spec_q_offset(g) - HEADER_SIZE - crate::format::NODE_RECORD_SIZE * n,
    );
    let qa = crate::format::spec_qarena_upto(g, n);
    assert forall|i: int, c: int|
        #![trigger sp_qcomp(file, i, c)]
        0 <= i < g.nodes@.len() && 0 <= c < dim implies sp_qcomp(file, i, c)
        == crate::format::spec_qrow(g, i)[c] by {
        crate::format::lemma_qarena_index(g, n, i, c);
        lemma_row_in_region(i, n, dim);
        let p = crate::format::spec_q_offset(g) + i * dim + c;
        assert(nt.len() + z1.len() == crate::format::spec_q_offset(g) - HEADER_SIZE);
        assert(file[p] == pay[p - HEADER_SIZE]);
        assert(pay[p - HEADER_SIZE] == qa[i * dim + c]);
        assert(qa[i * dim + c] == crate::format::spec_qrow(g, i)[c]);
    }
    assert forall|i: int|
        #![trigger sp_node_lc(file, i)]
        0 <= i < g.nodes@.len() implies sp_node_lc(file, i) as int == g.nodes@[i].layer_max
        + 1 by {
        crate::format::lemma_node_table_index(g, n, i);
        assert(g.node_wf(i));
        let p = HEADER_SIZE + crate::format::NODE_RECORD_SIZE * i;
        assert(file[p] == pay[p - HEADER_SIZE]);
        assert(pay[crate::format::NODE_RECORD_SIZE * i] == nt[crate::format::NODE_RECORD_SIZE
            * i]);
    }
}

/// A row index within the element count addresses bytes within the
/// region sized for the whole arena.
pub proof fn lemma_row_in_region(id: int, n: int, dim: int)
    requires
        0 <= id < n,
        0 <= dim,
    ensures
        0 <= id * dim,
        id * dim + dim <= n * dim,
{
    assert(0 <= id * dim && id * dim + dim <= n * dim) by (nonlinear_arith)
        requires
            0 <= id < n,
            0 <= dim,
    ;
}

} // verus!
