//! Trace lines for writes to off-chip memory.

use vstd::prelude::*;
use vstd::string::*;

use crate::utils::decimal::{decimal, push_decimal};

verus! {

/// The first `n` numbers of a list in decimal notation, separated by commas.
pub open spec fn comma_separated(shape: Seq<usize>, n: nat) -> Seq<char>
    decreases n,
{
    if n == 0 {
        Seq::empty()
    } else if n == 1 {
        decimal(shape[0] as nat)
    } else {
        comma_separated(shape, (n - 1) as nat) + ","@ + decimal(shape[n - 1] as nat)
    }
}

/// The line that records a write.
pub open spec fn aw_write_line(
    id: u32,
    cycle: u64,
    tensor_shape_tiled: Seq<usize>,
    st: u32,
    end: bool,
) -> Seq<char> {
    "{\"stage\":\"step_perf\",\"kind\":\"aw_write\",\"id\":"@ + decimal(id as nat)
        + ",\"file_path_id\":"@ + decimal(id as nat) + ",\"cycle\":"@ + decimal(cycle as nat)
        + ",\"tensor_shape_tiled\":["@ + comma_separated(
        tensor_shape_tiled,
        tensor_shape_tiled.len(),
    ) + "],\"st\":"@ + decimal(st as nat) + ",\"end\":"@ + (if end {
        "true"@
    } else {
        "false"@
    }) + "}"@
}

/// The line that records a write of operator `id` in a cycle: the shape of the
/// tensor, the stop level `st` of the tile that was written, and whether the
/// stream has ended.
pub fn trace_aw_write(
    id: u32,
    cycle: u64,
    tensor_shape_tiled: &[usize],
    st: u32,
    end: bool,
) -> (res: String)
    ensures
        res@ == aw_write_line(id, cycle, tensor_shape_tiled@, st, end),
{
    let mut line = String::new();
    line.append("{\"stage\":\"step_perf\",\"kind\":\"aw_write\",\"id\":");
    push_decimal(&mut line, id as u64);
    line.append(",\"file_path_id\":");
    push_decimal(&mut line, id as u64);
    line.append(",\"cycle\":");
    push_decimal(&mut line, cycle);
    line.append(",\"tensor_shape_tiled\":[");
    let ghost start = line@;
    let mut i: usize = 0;
    while i < tensor_shape_tiled.len()
        invariant
            i <= tensor_shape_tiled@.len(),
            line@ == start + comma_separated(tensor_shape_tiled@, i as nat),
        decreases tensor_shape_tiled@.len() - i,
    {
        let ghost before = line@;
        if i > 0 {
            line.append(",");
        }
        push_decimal(&mut line, tensor_shape_tiled[i] as u64);
        assert(line@ =~= start + comma_separated(tensor_shape_tiled@, (i + 1) as nat));
        i = i + 1;
    }
    line.append("],\"st\":");
    push_decimal(&mut line, st as u64);
    line.append(",\"end\":");
    if end {
        line.append("true");
    } else {
        line.append("false");
    }
    line.append("}");
    assert(line@ =~= aw_write_line(id, cycle, tensor_shape_tiled@, st, end));
    line
}

} // verus!
