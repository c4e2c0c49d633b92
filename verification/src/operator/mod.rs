//! The operators on streams.

pub mod accum;
pub mod accum_buff;
pub mod accum_row_stat;
pub mod batchedmatvec;
pub mod broadcast;
pub mod bufferize;
pub mod context_lanes;
pub mod counter;
pub mod dynstreamify;
pub mod eager_merge;
pub mod expand;
pub mod flatmap;
pub mod flatmap_decomp;
pub mod flatten;
pub mod functions;
pub mod gina_scan;
pub mod map;
pub mod map_accum;
pub mod matmul;
pub mod mux_demux;
pub mod parallelize;
pub mod partition;
pub mod promote;
pub mod reassemble;
pub mod repeat;
pub mod repeat_trace;
pub mod reshape;
pub mod retile_streamify;
pub mod shape_laws;

use vstd::prelude::*;

verus! {

/// This expresses the data being streamed directly between compute units
#[derive(Debug, Clone, Copy, PartialEq, Eq, PartialOrd, Default)]
pub struct ActEntry {}

} // verus!
