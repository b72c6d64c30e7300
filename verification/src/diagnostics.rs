//! Health checks on a loaded index.

use vstd::prelude::*;
use crate::format::{spec_magic, HEADER_SIZE};
use crate::mmap::{sp_dimension, sp_nodes_offset, sp_num_elements, MmapIndex};

verus! {

/// The verdict of a health check.
#[derive(Debug)]
pub enum HealthStatus {
    /// Nothing looked wrong.
    Healthy,
    /// A structural fault, with its description.
    Corrupted(String),
    /// Oddly large declared values, with a description.
    Suspicious(String),
}

/// Stateless index health checks.
pub struct Diagnostics;

impl Diagnostics {
    /// Inspect a loaded index for corruption or implausible sizes. A
    /// loaded index already passed magic, offset and checksum validation,
    /// so the structural re-checks can never fire and the verdict turns
    /// on the declared dimension and element count alone.
    pub fn check_health(index: &MmapIndex) -> (r: HealthStatus)
        requires
            index.wf(),
        ensures
            !(r matches HealthStatus::Corrupted(_)),
            (r matches HealthStatus::Suspicious(_)) <==> (sp_dimension(index.spec_data()) > 4096
                || sp_num_elements(index.spec_data()) > 1_000_000_000),
            (r matches HealthStatus::Healthy) <==> (sp_dimension(index.spec_data()) <= 4096
                && sp_num_elements(index.spec_data()) <= 1_000_000_000),
    {
        let header = index.header();
        proof {
            let d = index.spec_data();
            assert(d.subrange(0, 8) == spec_magic());
            assert(header.magic@[0] == 0x48u8 && header.magic@[1] == 0x4eu8 && header.magic@[2]
                == 0x53u8 && header.magic@[3] == 0x57u8 && header.magic@[4] == 0x41u8
                && header.magic@[5] == 0x4eu8 && header.magic@[6] == 0x4eu8 && header.magic@[7]
                == 0x31u8) by {
                assert(spec_magic()[0] == 0x48u8);
                assert(spec_magic()[1] == 0x4eu8);
                assert(spec_magic()[2] == 0x53u8);
                assert(spec_magic()[3] == 0x57u8);
                assert(spec_magic()[4] == 0x41u8);
                assert(spec_magic()[5] == 0x4eu8);
                assert(spec_magic()[6] == 0x4eu8);
                assert(spec_magic()[7] == 0x31u8);
            }
            assert((sp_num_elements(d) as int) * (sp_dimension(d) as int) >= 0)
                by (nonlinear_arith);
            assert(4 * (sp_num_elements(d) as int) * (sp_dimension(d) as int) >= 0)
                by (nonlinear_arith);
        }
        if !(header.magic[0] == 0x48 && header.magic[1] == 0x4e && header.magic[2] == 0x53
            && header.magic[3] == 0x57 && header.magic[4] == 0x41 && header.magic[5] == 0x4e
            && header.magic[6] == 0x4e && header.magic[7] == 0x31) {
            return HealthStatus::Corrupted("invalid magic bytes".to_string());
        }
        if header.dimension > 4096 {
            return HealthStatus::Suspicious("unusually high dimension".to_string());
        }
        if header.num_elements > 1_000_000_000 {
            return HealthStatus::Suspicious("unusually high element count".to_string());
        }
        if header.nodes_offset < HEADER_SIZE as u64 {
            proof {
                assert(HEADER_SIZE <= sp_nodes_offset(index.spec_data()) as int);
            }
            return HealthStatus::Corrupted("node table overlaps header".to_string());
        }
        if header.vectors_offset < header.nodes_offset {
            return HealthStatus::Corrupted("vector arena before node table".to_string());
        }
        if header.connections_offset < header.vectors_offset {
            return HealthStatus::Corrupted("connection arena before vectors".to_string());
        }
        HealthStatus::Healthy
    }
}

} // verus!
