//! The on-disk index format.
//!
//! A file is a 256-byte header followed by the node table, two 32-byte
//! aligned vector arenas (one byte per component quantized, four bytes per
//! component normalized fixed point), and a flat connection arena of
//! little-endian `u32` words. A CRC32 checksum over everything after the
//! header guards integrity.

use vstd::prelude::*;
use vstd::bytes::{
    spec_u16_to_le_bytes, spec_u32_to_le_bytes, spec_u64_to_le_bytes, u16_to_le_bytes,
    u32_to_le_bytes, u64_to_le_bytes,
};
use crate::hnsw::HNSW;
use crate::quant::{spec_norm_comp, spec_quantize_u8_comp};

verus! {

/// Size of the fixed header in bytes.
pub const HEADER_SIZE: usize = 256;

/// Size of one node record in bytes.
pub const NODE_RECORD_SIZE: usize = 8;

/// The decoded fixed header.
pub struct Header {
    pub magic: [u8; 8],
    pub version: u32,
    pub dimension: u32,
    pub num_elements: u32,
    pub entry_point_id: u32,
    pub max_layer: u16,
    pub m: u32,
    pub m0: u32,
    pub ef_construction: u32,
    pub nodes_offset: u64,
    pub quantized_vectors_offset: u64,
    pub vectors_offset: u64,
    pub connections_offset: u64,
    pub checksum: u64,
}

/// One decoded node record: how many layers the node has, and the byte
/// offset of its first connection block in the connection arena.
pub struct OnDiskNode {
    pub layer_count: u8,
    pub connections_offset: u32,
}

/// The eight magic bytes, ASCII "HNSWANN1".
pub open spec fn spec_magic() -> Seq<u8> {
    seq![0x48u8, 0x4eu8, 0x53u8, 0x57u8, 0x41u8, 0x4eu8, 0x4eu8, 0x31u8]
}

/// `n` zero bytes.
pub open spec fn spec_zeros(n: int) -> Seq<u8> {
    Seq::new(n as nat, |i: int| 0u8)
}

/// Round `x` up to the next multiple of 32.
pub open spec fn spec_align32(x: int) -> int {
    if x % 32 == 0 {
        x
    } else {
        x + 32 - (x % 32)
    }
}

/// The bit pattern of an `i32` value as a nonnegative integer.
pub open spec fn spec_i32_bits(x: int) -> int {
    if x >= 0 {
        x
    } else {
        x + 0x1_0000_0000
    }
}

/// Little-endian bytes of a sequence of `u32` words, first `i` words.
pub open spec fn spec_words_bytes_upto(ws: Seq<u32>, i: int) -> Seq<u8>
    decreases i,
{
    if i <= 0 {
        Seq::empty()
    } else {
        spec_words_bytes_upto(ws, i - 1) + spec_u32_to_le_bytes(ws[i - 1])
    }
}

/// Little-endian bytes of a whole sequence of `u32` words.
pub open spec fn spec_words_bytes(ws: Seq<u32>) -> Seq<u8> {
    spec_words_bytes_upto(ws, ws.len() as int)
}

/// The connection words of one layer of one node: the neighbor count,
/// then the neighbor ids.
pub open spec fn spec_conn_block(g: HNSW, i: int, l: int) -> Seq<u32> {
    let c = g.nodes@[i].connections@[l]@;
    seq![c.len() as u32] + Seq::new(c.len(), |k: int| c[k] as u32)
}

/// The connection words of node `i`'s first `l` layers.
pub open spec fn spec_conn_words_layers(g: HNSW, i: int, l: int) -> Seq<u32>
    decreases l,
{
    if l <= 0 {
        Seq::empty()
    } else {
        spec_conn_words_layers(g, i, l - 1) + spec_conn_block(g, i, l - 1)
    }
}

/// The connection words of one whole node: one block per layer.
pub open spec fn spec_conn_words_node(g: HNSW, i: int) -> Seq<u32> {
    spec_conn_words_layers(g, i, g.nodes@[i].connections@.len() as int)
}

/// The connection words of the first `i` nodes.
pub open spec fn spec_conn_words_upto(g: HNSW, i: int) -> Seq<u32>
    decreases i,
{
    if i <= 0 {
        Seq::empty()
    } else {
        spec_conn_words_upto(g, i - 1) + spec_conn_words_node(g, i - 1)
    }
}

/// The whole connection arena, as words.
pub open spec fn spec_conn_words(g: HNSW) -> Seq<u32> {
    spec_conn_words_upto(g, g.nodes@.len() as int)
}

/// The byte offset of node `i`'s connection blocks inside the arena.
pub open spec fn spec_conn_offset(g: HNSW, i: int) -> int {
    4 * spec_conn_words_upto(g, i).len() as int
}

/// One node-table record: layer count, three bytes of padding, and the
/// connection offset.
pub open spec fn spec_node_record(g: HNSW, i: int) -> Seq<u8> {
    seq![
        (g.nodes@[i].connections@.len() as u8),
        0u8,
        0u8,
        0u8,
    ] + spec_u32_to_le_bytes(spec_conn_offset(g, i) as u32)
}

/// The node table for the first `i` nodes.
pub open spec fn spec_node_table_upto(g: HNSW, i: int) -> Seq<u8>
    decreases i,
{
    if i <= 0 {
        Seq::empty()
    } else {
        spec_node_table_upto(g, i - 1) + spec_node_record(g, i - 1)
    }
}

/// The quantized arena row of node `i`: one byte per component.
pub open spec fn spec_qrow(g: HNSW, i: int) -> Seq<u8> {
    Seq::new(
        g.nodes@[i].vector@.len(),
        |c: int| spec_quantize_u8_comp(spec_norm_comp(g.nodes@[i].vector@, c)) as u8,
    )
}

/// The quantized arena for the first `i` nodes.
pub open spec fn spec_qarena_upto(g: HNSW, i: int) -> Seq<u8>
    decreases i,
{
    if i <= 0 {
        Seq::empty()
    } else {
        spec_qarena_upto(g, i - 1) + spec_qrow(g, i - 1)
    }
}

/// The full-precision arena row of node `i`: each normalized component as
/// four little-endian bytes of its 32-bit pattern, first `c` components.
pub open spec fn spec_frow_upto(g: HNSW, i: int, c: int) -> Seq<u8>
    decreases c,
{
    if c <= 0 {
        Seq::empty()
    } else {
        spec_frow_upto(g, i, c - 1) + spec_u32_to_le_bytes(
            spec_i32_bits(spec_norm_comp(g.nodes@[i].vector@, c - 1)) as u32,
        )
    }
}

/// The full-precision arena for the first `i` nodes.
pub open spec fn spec_farena_upto(g: HNSW, i: int) -> Seq<u8>
    decreases i,
{
    if i <= 0 {
        Seq::empty()
    } else {
        spec_farena_upto(g, i - 1) + spec_frow_upto(g, i - 1, g.nodes@[i - 1].vector@.len() as int)
    }
}

/// Absolute byte offset of the quantized arena.
pub open spec fn spec_q_offset(g: HNSW) -> int {
    spec_align32(HEADER_SIZE + NODE_RECORD_SIZE * g.nodes@.len())
}

/// Absolute byte offset of the full-precision arena.
pub open spec fn spec_f_offset(g: HNSW) -> int {
    spec_align32(spec_q_offset(g) + g.nodes@.len() * g.spec_dim())
}

/// Absolute byte offset of the connection arena.
pub open spec fn spec_c_offset(g: HNSW) -> int {
    spec_f_offset(g) + 4 * g.nodes@.len() * g.spec_dim()
}

/// Everything after the header: node table, padding, quantized arena,
/// padding, full-precision arena, connection arena.
pub open spec fn spec_payload(g: HNSW) -> Seq<u8> {
    let n = g.nodes@.len() as int;
    spec_node_table_upto(g, n) + spec_zeros(
        spec_q_offset(g) - HEADER_SIZE - NODE_RECORD_SIZE * n,
    ) + spec_qarena_upto(g, n) + spec_zeros(
        spec_f_offset(g) - spec_q_offset(g) - n * g.spec_dim(),
    ) + spec_farena_upto(g, n) + spec_words_bytes(spec_conn_words(g))
}

/// The 256 header bytes for graph `g`, with the given checksum field.
pub open spec fn spec_header_bytes(g: HNSW, crc: u64) -> Seq<u8> {
    spec_magic() + spec_u32_to_le_bytes(1u32) + spec_u32_to_le_bytes(g.spec_dim() as u32)
        + spec_u32_to_le_bytes(g.nodes@.len() as u32) + spec_u32_to_le_bytes(
        g.entry_point.unwrap() as u32,
    ) + spec_u16_to_le_bytes(
        g.nodes@[g.entry_point.unwrap() as int].layer_max as u16,
    ) + spec_zeros(2) + spec_u32_to_le_bytes(g.m as u32) + spec_u32_to_le_bytes(g.m0 as u32)
        + spec_u32_to_le_bytes(g.ef_construction as u32) + spec_u64_to_le_bytes(HEADER_SIZE as u64)
        + spec_u64_to_le_bytes(spec_q_offset(g) as u64) + spec_u64_to_le_bytes(
        spec_f_offset(g) as u64,
    ) + spec_u64_to_le_bytes(spec_c_offset(g) as u64) + spec_u64_to_le_bytes(crc) + spec_zeros(176)
}

/// The whole serialized file for graph `g`.
pub open spec fn spec_save(g: HNSW) -> Seq<u8> {
    spec_header_bytes(g, crc32_of(spec_payload(g)) as u64) + spec_payload(g)
}

/// Relies on crc32fast::hash: the CRC32 checksum of a byte slice, a
/// function of the bytes alone.
#[verifier::external_body]
pub fn crc32(bytes: &[u8]) -> (r: u32)
    ensures
        r == crc32_of(bytes@),
{
    crc32fast::hash(bytes)
}

/// The CRC32 checksum as a mathematical function of the bytes.
pub uninterp spec fn crc32_of(bytes: Seq<u8>) -> u32;

/// The node table of `i` nodes occupies `8 * i` bytes.
pub proof fn lemma_node_table_len(g: HNSW, i: int)
    requires
        i >= 0,
    ensures
        spec_node_table_upto(g, i).len() == NODE_RECORD_SIZE * i,
    decreases i,
{
    vstd::bytes::lemma_auto_spec_u32_to_from_le_bytes();
    if i > 0 {
        lemma_node_table_len(g, i - 1);
    }
}

/// The quantized arena of `i` nodes occupies `i * dim` bytes.
pub proof fn lemma_qarena_len(g: HNSW, i: int)
    requires
        0 <= i <= g.nodes@.len(),
        g.vectors_wf(),
    ensures
        spec_qarena_upto(g, i).len() == i * g.spec_dim(),
    decreases i,
{
    let d = g.spec_dim();
    if i > 0 {
        lemma_qarena_len(g, i - 1);
        assert(g.vector_ok(i - 1));
        assert(spec_qrow(g, i - 1).len() == d);
        assert(spec_qarena_upto(g, i) == spec_qarena_upto(g, i - 1) + spec_qrow(g, i - 1));
        assert(spec_qarena_upto(g, i).len() == (i - 1) * d + d);
        assert(i * d == (i - 1) * d + d) by (nonlinear_arith);
    } else {
        assert(spec_qarena_upto(g, i).len() == 0);
        assert(i * d == 0) by (nonlinear_arith)
            requires
                i == 0,
        ;
    }
}

/// The first `c` components of a full-precision row occupy `4 * c` bytes.
pub proof fn lemma_frow_len(g: HNSW, i: int, c: int)
    requires
        c >= 0,
    ensures
        spec_frow_upto(g, i, c).len() == 4 * c,
    decreases c,
{
    vstd::bytes::lemma_auto_spec_u32_to_from_le_bytes();
    if c > 0 {
        lemma_frow_len(g, i, c - 1);
    }
}

/// The full-precision arena of `i` nodes occupies `4 * i * dim` bytes.
pub proof fn lemma_farena_len(g: HNSW, i: int)
    requires
        0 <= i <= g.nodes@.len(),
        g.vectors_wf(),
    ensures
        spec_farena_upto(g, i).len() == 4 * i * g.spec_dim(),
    decreases i,
{
    let d = g.spec_dim();
    if i > 0 {
        lemma_farena_len(g, i - 1);
        assert(g.vector_ok(i - 1));
        lemma_frow_len(g, i - 1, g.nodes@[i - 1].vector@.len() as int);
        assert(spec_frow_upto(g, i - 1, g.nodes@[i - 1].vector@.len() as int).len() == 4 * d);
        assert(spec_farena_upto(g, i) == spec_farena_upto(g, i - 1) + spec_frow_upto(
            g,
            i - 1,
            g.nodes@[i - 1].vector@.len() as int,
        ));
        assert(spec_farena_upto(g, i).len() == 4 * (i - 1) * d + 4 * d);
        assert(4 * i * d == 4 * (i - 1) * d + 4 * d) by (nonlinear_arith);
    } else {
        assert(spec_farena_upto(g, i).len() == 0);
        assert(4 * i * d == 0) by (nonlinear_arith)
            requires
                i == 0,
        ;
    }
}

/// `i` words occupy `4 * i` bytes.
pub proof fn lemma_words_bytes_len(ws: Seq<u32>, i: int)
    requires
        i >= 0,
    ensures
        spec_words_bytes_upto(ws, i).len() == 4 * i,
    decreases i,
{
    vstd::bytes::lemma_auto_spec_u32_to_from_le_bytes();
    if i > 0 {
        lemma_words_bytes_len(ws, i - 1);
    }
}

/// Earlier nodes contribute a prefix of the connection arena.
pub proof fn lemma_conn_words_prefix_le(g: HNSW, i: int, j: int)
    requires
        0 <= i <= j,
    ensures
        spec_conn_words_upto(g, i).len() <= spec_conn_words_upto(g, j).len(),
    decreases j - i,
{
    if i < j {
        lemma_conn_words_prefix_le(g, i, j - 1);
    }
}

/// Byte values written by `spec_words_bytes_upto` extend bytewise.
pub proof fn lemma_words_bytes_step(ws: Seq<u32>, i: int)
    requires
        0 <= i < ws.len(),
    ensures
        spec_words_bytes_upto(ws, i + 1) == spec_words_bytes_upto(ws, i) + spec_u32_to_le_bytes(
            ws[i],
        ),
{
}

/// Reading the quantized arena back at a row and column gives that
/// vector's quantized component.
pub proof fn lemma_qarena_index(g: HNSW, m: int, i: int, c: int)
    requires
        g.vectors_wf(),
        0 <= i < m <= g.nodes@.len(),
        0 <= c < g.spec_dim(),
    ensures
        spec_qarena_upto(g, m)[i * g.spec_dim() + c] == spec_qrow(g, i)[c],
    decreases m,
{
    let d = g.spec_dim();
    lemma_qarena_len(g, m - 1);
    lemma_qarena_len(g, m);
    assert(g.vector_ok(m - 1));
    assert(0 <= i * d && i * d + c < m * d && (i < m - 1 ==> i * d + d <= (m - 1) * d))
        by (nonlinear_arith)
        requires
            0 <= i < m,
            0 <= c < d,
    ;
    if i == m - 1 {
        assert(i * d + c - (m - 1) * d == c);
        assert(spec_qarena_upto(g, m)[i * d + c] == spec_qrow(g, m - 1)[c]);
    } else {
        lemma_qarena_index(g, m - 1, i, c);
        assert(spec_qarena_upto(g, m)[i * d + c] == spec_qarena_upto(g, m - 1)[i * d + c]);
    }
}

/// Reading the node table back at a record's first byte gives that
/// node's layer count.
pub proof fn lemma_node_table_index(g: HNSW, m: int, i: int)
    requires
        0 <= i < m,
    ensures
        spec_node_table_upto(g, m)[NODE_RECORD_SIZE * i] == (
        g.nodes@[i].connections@.len() as u8),
    decreases m,
{
    vstd::bytes::lemma_auto_spec_u32_to_from_le_bytes();
    lemma_node_table_len(g, m - 1);
    lemma_node_table_len(g, m);
    if i == m - 1 {
        assert(spec_node_record(g, m - 1)[0] == (g.nodes@[i].connections@.len() as u8));
    } else {
        lemma_node_table_index(g, m - 1, i);
    }
}

/// Append a `u16` in little-endian order.
pub fn push_u16_le(buf: &mut Vec<u8>, x: u16)
    ensures
        final(buf)@ == old(buf)@ + spec_u16_to_le_bytes(x),
{
    let mut b = u16_to_le_bytes(x);
    buf.append(&mut b);
}

/// Append a `u32` in little-endian order.
pub fn push_u32_le(buf: &mut Vec<u8>, x: u32)
    ensures
        final(buf)@ == old(buf)@ + spec_u32_to_le_bytes(x),
{
    let mut b = u32_to_le_bytes(x);
    buf.append(&mut b);
}

/// Append a `u64` in little-endian order.
pub fn push_u64_le(buf: &mut Vec<u8>, x: u64)
    ensures
        final(buf)@ == old(buf)@ + spec_u64_to_le_bytes(x),
{
    let mut b = u64_to_le_bytes(x);
    buf.append(&mut b);
}

/// Append `n` zero bytes.
pub fn push_zeros(buf: &mut Vec<u8>, n: usize)
    ensures
        final(buf)@ == old(buf)@ + spec_zeros(n as int),
{
    let mut i: usize = 0;
    while i < n
        invariant
            i <= n,
            buf@.len() == old(buf)@.len() + i,
            buf@ == old(buf)@ + spec_zeros(i as int),
        decreases n - i,
    {
        buf.push(0u8);
        proof {
            assert(buf@ =~= old(buf)@ + spec_zeros(i + 1));
        }
        i = i + 1;
    }
}

/// Append the little-endian bytes of every word.
fn write_words(buf: &mut Vec<u8>, words: &Vec<u32>)
    ensures
        final(buf)@ == old(buf)@ + spec_words_bytes(words@),
{
    let n = words.len();
    let mut i: usize = 0;
    while i < n
        invariant
            i <= n,
            n == words@.len(),
            buf@ == old(buf)@ + spec_words_bytes_upto(words@, i as int),
        decreases n - i,
    {
        push_u32_le(buf, words[i]);
        proof {
            lemma_words_bytes_step(words@, i as int);
            assert(buf@ =~= old(buf)@ + spec_words_bytes_upto(words@, i + 1));
        }
        i = i + 1;
    }
}

impl HNSW {
    /// The serialized file fits the format's fixed-width fields and a
    /// 32-bit address space.
    pub open spec fn spec_save_bounds(&self) -> bool {
        &&& self.nodes@.len() <= 0xFFFF_FFFF
        &&& self.layers <= 255
        &&& self.m <= 0xFFFF
        &&& self.m0 <= 0xFFFF
        &&& self.ef_construction <= 0xFFFF_FFFF
        &&& 4 * spec_conn_words(*self).len() <= 0xFFFF_FFFF
        &&& spec_c_offset(*self) + 4 * spec_conn_words(*self).len() <= 0x7FFF_FFFF
    }

    /// Build the connection arena words and each node's byte offset into
    /// the arena.
    #[verifier::loop_isolation(false)]
    fn build_conn_arena(&self) -> (r: (Vec<u32>, Vec<u32>))
        requires
            self.wf(),
            self.spec_save_bounds(),
        ensures
            r.0@ == spec_conn_words(*self),
            r.1@.len() == self.nodes@.len(),
            forall|j: int|
                0 <= j < self.nodes@.len() ==> (#[trigger] r.1@[j]) as int == spec_conn_offset(
                    *self,
                    j,
                ),
    {
        let n = self.nodes.len();
        let mut words: Vec<u32> = Vec::new();
        let mut offsets: Vec<u32> = Vec::new();
        let mut i: usize = 0;
        while i < n
            invariant
                i <= n,
                words@ == spec_conn_words_upto(*self, i as int),
                offsets@.len() == i,
                forall|j: int|
                    0 <= j < i ==> (#[trigger] offsets@[j]) as int == spec_conn_offset(*self, j),
            decreases n - i,
        {
            proof {
                lemma_conn_words_prefix_le(*self, i as int, n as int);
            }
            offsets.push((4 * words.len()) as u32);
            let num_layers = self.nodes[i].connections.len();
            proof {
                assert(self.node_wf(i as int));
            }
            let mut l: usize = 0;
            while l < num_layers
                invariant
                    l <= num_layers,
                    i < n,
                    num_layers == self.nodes@[i as int].connections@.len(),
                    words@ == spec_conn_words_upto(*self, i as int) + spec_conn_words_layers(
                        *self,
                        i as int,
                        l as int,
                    ),
                    offsets@.len() == i + 1,
                    forall|j: int|
                        0 <= j < i + 1 ==> (#[trigger] offsets@[j]) as int == spec_conn_offset(
                            *self,
                            j,
                        ),
                decreases num_layers - l,
            {
                proof {
                    assert(self.node_wf(i as int));
                    assert(self.conn_wf(i as int, l as int));
                    lemma_conn_words_prefix_le(*self, i as int + 1, n as int);
                    assert(spec_conn_words_upto(*self, i as int + 1) == spec_conn_words_upto(
                        *self,
                        i as int,
                    ) + spec_conn_words_node(*self, i as int));
                    assert(spec_conn_words_layers(*self, i as int, l as int).len()
                        <= spec_conn_words_node(*self, i as int).len()) by {
                        lemma_conn_layers_prefix_le(*self, i as int, l as int, num_layers as int);
                    }
                }
                let count = self.nodes[i].connections[l].len();
                words.push(count as u32);
                let ghost before = words@;
                let mut k: usize = 0;
                while k < count
                    invariant
                        k <= count,
                        i < n,
                        l < num_layers,
                        num_layers == self.nodes@[i as int].connections@.len(),
                        count == self.nodes@[i as int].connections@[l as int]@.len(),
                        words@ == before + Seq::new(
                            k as nat,
                            |q: int| self.nodes@[i as int].connections@[l as int]@[q] as u32,
                        ),
                    decreases count - k,
                {
                    words.push(self.nodes[i].connections[l][k]  as u32);
                    proof {
                        assert(words@ =~= before + Seq::new(
                            (k + 1) as nat,
                            |q: int| self.nodes@[i as int].connections@[l as int]@[q] as u32,
                        ));
                    }
                    k = k + 1;
                }
                proof {
                    assert(words@ =~= spec_conn_words_upto(*self, i as int)
                        + spec_conn_words_layers(*self, i as int, l as int + 1)) by {
                        assert(spec_conn_block(*self, i as int, l as int) =~= seq![count as u32]
                            + Seq::new(
                            count as nat,
                            |q: int| self.nodes@[i as int].connections@[l as int]@[q] as u32,
                        ));
                        assert(words@ =~= (spec_conn_words_upto(*self, i as int)
                            + spec_conn_words_layers(*self, i as int, l as int)) + spec_conn_block(
                            *self,
                            i as int,
                            l as int,
                        ));
                    }
                }
                l = l + 1;
            }
            proof {
                assert(words@ == spec_conn_words_upto(*self, i as int + 1));
            }
            i = i + 1;
        }
        (words, offsets)
    }

    /// Append the node table: one record per node.
    #[verifier::loop_isolation(false)]
    fn write_node_table(&self, buf: &mut Vec<u8>, offsets: &Vec<u32>)
        requires
            self.wf(),
            self.layers <= 255,
            offsets@.len() == self.nodes@.len(),
            forall|j: int|
                0 <= j < self.nodes@.len() ==> (#[trigger] offsets@[j]) as int == spec_conn_offset(
                    *self,
                    j,
                ),
        ensures
            final(buf)@ == old(buf)@ + spec_node_table_upto(*self, self.nodes@.len() as int),
    {
        let n = self.nodes.len();
        let mut i: usize = 0;
        while i < n
            invariant
                i <= n,
                buf@ == old(buf)@ + spec_node_table_upto(*self, i as int),
            decreases n - i,
        {
            proof {
                assert(self.node_wf(i as int));
            }
            let ghost before = buf@;
            buf.push(self.nodes[i].connections.len() as u8);
            buf.push(0u8);
            buf.push(0u8);
            buf.push(0u8);
            push_u32_le(buf, offsets[i]);
            proof {
                vstd::bytes::lemma_auto_spec_u32_to_from_le_bytes();
                assert(offsets@[i as int] as int == spec_conn_offset(*self, i as int));
                assert(spec_conn_offset(*self, i as int) as u32 == offsets@[i as int]);
                assert(buf@ =~= before + spec_node_record(*self, i as int));
                assert(buf@ =~= old(buf)@ + spec_node_table_upto(*self, i as int + 1));
            }
            i = i + 1;
        }
    }

    /// Append the quantized arena: each vector normalized then quantized
    /// to one byte per component.
    #[verifier::loop_isolation(false)]
    fn write_qarena(&self, buf: &mut Vec<u8>)
        requires
            self.wf(),
        ensures
            final(buf)@ == old(buf)@ + spec_qarena_upto(*self, self.nodes@.len() as int),
    {
        let n = self.nodes.len();
        let mut i: usize = 0;
        while i < n
            invariant
                i <= n,
                buf@ == old(buf)@ + spec_qarena_upto(*self, i as int),
            decreases n - i,
        {
            proof {
                assert(self.node_wf(i as int));
                assert(self.vector_ok(i as int));
            }
            let normalized = crate::quant::Quantizer::l2_normalize(&self.nodes[i].vector);
            let row = crate::quant::Quantizer::quantize_u8(&normalized);
            let ghost before = buf@;
            buf.extend_from_slice(row.as_slice());
            proof {
                assert(row@ =~= spec_qrow(*self, i as int));
                assert(buf@ =~= before + spec_qrow(*self, i as int));
                assert(buf@ =~= old(buf)@ + spec_qarena_upto(*self, i as int + 1));
            }
            i = i + 1;
        }
    }

    /// Append the full-precision arena: each vector normalized, each
    /// component as four little-endian bytes of its 32-bit pattern.
    #[verifier::loop_isolation(false)]
    fn write_farena(&self, buf: &mut Vec<u8>)
        requires
            self.wf(),
        ensures
            final(buf)@ == old(buf)@ + spec_farena_upto(*self, self.nodes@.len() as int),
    {
        let n = self.nodes.len();
        let mut i: usize = 0;
        while i < n
            invariant
                i <= n,
                buf@ == old(buf)@ + spec_farena_upto(*self, i as int),
            decreases n - i,
        {
            proof {
                assert(self.node_wf(i as int));
                assert(self.vector_ok(i as int));
            }
            let normalized = crate::quant::Quantizer::l2_normalize(&self.nodes[i].vector);
            let dim = normalized.len();
            let ghost before = buf@;
            let mut c: usize = 0;
            while c < dim
                invariant
                    c <= dim,
                    i < n,
                    dim == self.nodes@[i as int].vector@.len(),
                    normalized@.len() == dim,
                    forall|q: int|
                        0 <= q < dim ==> (#[trigger] normalized@[q]) as int == spec_norm_comp(
                            self.nodes@[i as int].vector@,
                            q,
                        ),
                    buf@ == before + spec_frow_upto(*self, i as int, c as int),
                decreases dim - c,
            {
                let w: i32 = normalized[c];
                let bits: u32 = if w >= 0 {
                    w as u32
                } else {
                    ((w as i64) + 0x1_0000_0000i64) as u32
                };
                proof {
                    assert(bits as int == spec_i32_bits(w as int));
                }
                push_u32_le(buf, bits);
                proof {
                    assert(buf@ =~= before + spec_frow_upto(*self, i as int, c as int + 1));
                }
                c = c + 1;
            }
            proof {
                assert(buf@ =~= old(buf)@ + spec_farena_upto(*self, i as int + 1));
            }
            i = i + 1;
        }
    }

    /// Serialize the graph into one contiguous byte image of the on-disk
    /// format, checksum filled in. An empty graph has no entry point and
    /// is refused with `None`.
    #[verifier::loop_isolation(false)]
    #[verifier::rlimit(100)]
    pub fn save(&self) -> (r: Option<Vec<u8>>)
        requires
            self.wf(),
            self.spec_save_bounds(),
        ensures
            r.is_some() <==> self.nodes@.len() > 0,
            r.is_some() ==> r.unwrap()@ == spec_save(*self),
    {
        if self.nodes.len() == 0 {
            return Option::None;
        }
        let n = self.nodes.len();
        proof {
            assert(self.node_wf(0));
            assert(self.vector_ok(0));
            assert(self.vectors_wf()) by {
                assert forall|i: int| 0 <= i < self.nodes@.len() implies self.vector_ok(i) by {
                    assert(self.node_wf(i));
                }
            }
            lemma_node_table_len(*self, n as int);
            lemma_qarena_len(*self, n as int);
            lemma_farena_len(*self, n as int);
            lemma_words_bytes_len(spec_conn_words(*self), spec_conn_words(*self).len() as int);
            lemma_align32_bounds(HEADER_SIZE + NODE_RECORD_SIZE * n);
            assert(0 <= n as int * self.spec_dim() <= 0x7FFF_FFFF) by (nonlinear_arith)
                requires
                    0 <= n,
                    0 <= self.spec_dim(),
                    spec_align32(spec_q_offset(*self) + n as int * self.spec_dim())
                        + 4 * (n as int) * self.spec_dim() + 4 * spec_conn_words(
                        *self,
                    ).len() <= 0x7FFF_FFFF,
                    spec_q_offset(*self) >= 0,
                    spec_align32(spec_q_offset(*self) + n as int * self.spec_dim())
                        >= spec_q_offset(*self) + n as int * self.spec_dim(),
                    4 * (n as int) * self.spec_dim() >= 0,
            ;
            lemma_align32_bounds(spec_q_offset(*self) + n as int * self.spec_dim());
            assert(4 * (n as int) * self.spec_dim() >= 0) by (nonlinear_arith)
                requires
                    0 <= n,
                    0 <= self.spec_dim(),
            ;
        }
        let dim = self.nodes[0].vector.len();
        let (words, offsets) = self.build_conn_arena();
        let nodes_end: usize = HEADER_SIZE + NODE_RECORD_SIZE * n;
        let q_off: usize = align32_up(nodes_end);
        proof {
            assert(q_off as int == spec_q_offset(*self));
            assert(dim as int == self.spec_dim());
            assert(n * dim == n as int * self.spec_dim());
            lemma_align32_bounds(q_off as int + n as int * self.spec_dim());
        }
        let q_end: usize = q_off + n * dim;
        let f_off: usize = align32_up(q_end);
        proof {
            assert(f_off as int == spec_f_offset(*self));
            assert(4 * (n as int * dim as int) == 4 * (n as int) * self.spec_dim())
                by (nonlinear_arith)
                requires
                    dim as int == self.spec_dim(),
            ;
        }
        let f_end: usize = f_off + 4 * (n * dim);
        proof {
            assert(f_end as int == spec_c_offset(*self));
        }
        let c_off: usize = f_end;
        let mut payload: Vec<u8> = Vec::new();
        self.write_node_table(&mut payload, &offsets);
        push_zeros(&mut payload, q_off - nodes_end);
        self.write_qarena(&mut payload);
        push_zeros(&mut payload, f_off - q_end);
        self.write_farena(&mut payload);
        write_words(&mut payload, &words);
        proof {
            assert(payload@ =~= spec_payload(*self));
        }
        let crc: u32 = crc32(payload.as_slice());
        let entry = match self.entry_point {
            Option::Some(e) => e,
            Option::None => 0,
        };
        proof {
            assert(self.node_wf(entry as int));
        }
        let max_layer: u16 = self.nodes[entry].layer_max as u16;
        let mut out: Vec<u8> = Vec::new();
        out.push(0x48u8);
        out.push(0x4eu8);
        out.push(0x53u8);
        out.push(0x57u8);
        out.push(0x41u8);
        out.push(0x4eu8);
        out.push(0x4eu8);
        out.push(0x31u8);
        proof {
            assert(out@ =~= spec_magic());
        }
        push_u32_le(&mut out, 1u32);
        push_u32_le(&mut out, dim as u32);
        push_u32_le(&mut out, n as u32);
        push_u32_le(&mut out, entry as u32);
        push_u16_le(&mut out, max_layer);
        push_zeros(&mut out, 2);
        push_u32_le(&mut out, self.m as u32);
        push_u32_le(&mut out, self.m0 as u32);
        push_u32_le(&mut out, self.ef_construction as u32);
        push_u64_le(&mut out, HEADER_SIZE as u64);
        push_u64_le(&mut out, q_off as u64);
        push_u64_le(&mut out, f_off as u64);
        push_u64_le(&mut out, c_off as u64);
        push_u64_le(&mut out, crc as u64);
        push_zeros(&mut out, 176);
        proof {
            assert(out@ =~= spec_header_bytes(*self, crc32_of(spec_payload(*self)) as u64));
        }
        let mut p = payload;
        out.append(&mut p);
        proof {
            assert(out@ =~= spec_save(*self));
        }
        Option::Some(out)
    }
}

/// Alignment rounds up by less than 32 and lands on a multiple of 32.
pub proof fn lemma_align32_bounds(x: int)
    requires
        x >= 0,
    ensures
        x <= spec_align32(x) < x + 32,
        spec_align32(x) % 32 == 0,
{
    vstd::arithmetic::div_mod::lemma_mod_division_less_than_divisor(x, 32);
    vstd::arithmetic::div_mod::lemma_fundamental_div_mod(x, 32);
    if x % 32 != 0 {
        assert((x + 32 - (x % 32)) % 32 == 0) by {
            vstd::arithmetic::div_mod::lemma_mod_add_multiples_vanish(x - (x % 32), 32);
            vstd::arithmetic::div_mod::lemma_mod_multiples_basic(x / 32, 32);
            assert(x - (x % 32) == 32 * (x / 32));
            assert(x + 32 - (x % 32) == 32 * (x / 32) + 32);
            vstd::arithmetic::div_mod::lemma_mod_multiples_basic(x / 32 + 1, 32);
            assert(32 * (x / 32) + 32 == 32 * (x / 32 + 1));
        }
    }
}

/// Blocks of earlier layers form a prefix of a node's connection words.
pub proof fn lemma_conn_layers_prefix_le(g: HNSW, i: int, l: int, lmax: int)
    requires
        0 <= l <= lmax,
    ensures
        spec_conn_words_layers(g, i, l).len() <= spec_conn_words_layers(g, i, lmax).len(),
    decreases lmax - l,
{
    if l < lmax {
        lemma_conn_layers_prefix_le(g, i, l + 1, lmax);
    }
}

/// Exact alignment of a byte position to the next multiple of 32.
pub fn align32_up(x: usize) -> (r: usize)
    requires
        x + 31 <= 0x7FFF_FFFF,
    ensures
        r as int == spec_align32(x as int),
{
    let rem = x % 32;
    if rem == 0 {
        x
    } else {
        x + 32 - rem
    }
}

} // verus!
