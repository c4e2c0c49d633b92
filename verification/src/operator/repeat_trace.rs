//! Trace lines for streams that are repeated after a reference stream.

use vstd::prelude::*;
use vstd::string::*;

use crate::primitives::elem::{Elem, StopType};
use crate::utils::decimal::{decimal, push_decimal};

verus! {

/// What a repeating operator has taken and sent. `window_outputs` counts what
/// has been sent for the current element alone.
#[derive(Debug)]
pub struct RepeatTrace {
    pub id: u32,
    pub traced: bool,
    pub input_count: usize,
    pub window_outputs: usize,
    pub ref_count: usize,
    pub output_count: usize,
}

impl RepeatTrace {
    /// Every element of the reference stream is answered by one that is sent.
    pub open spec fn wf(self) -> bool {
        &&& self.output_count == self.ref_count
        &&& self.window_outputs <= self.output_count
    }

    /// The line for a stop of the reference stream.
    pub open spec fn window_text(self, ref_stop: int) -> Seq<char> {
        "[repeat-ref-trace] id="@ + decimal(self.id as nat) + " input="@ + decimal(
            self.input_count as nat,
        ) + " window_outputs="@ + decimal(self.window_outputs as nat) + " ref_count="@ + decimal(
            self.ref_count as nat,
        ) + " output_count="@ + decimal(self.output_count as nat) + " ref_stop="@ + decimal(
            ref_stop as nat,
        )
    }

    /// The line for the end of the stream.
    pub open spec fn closed_text(self) -> Seq<char> {
        "[repeat-ref-trace] id="@ + decimal(self.id as nat) + " input_closed input_count="@
            + decimal(self.input_count as nat) + " ref_count="@ + decimal(self.ref_count as nat)
            + " output_count="@ + decimal(self.output_count as nat)
    }

    /// Starts to count for an operator, which is traced if it is listed.
    pub fn new(id: u32, traced_ids: &[u32]) -> (res: Self)
        ensures
            res.wf(),
            res.id == id,
            res.traced == traced_ids@.contains(id),
            res.input_count == 0,
            res.window_outputs == 0,
            res.ref_count == 0,
            res.output_count == 0,
    {
        let mut traced = false;
        let mut i: usize = 0;
        while i < traced_ids.len()
            invariant
                i <= traced_ids@.len(),
                traced == traced_ids@.take(i as int).contains(id),
            decreases traced_ids@.len() - i,
        {
            let ghost seen = traced_ids@.take(i as int);
            let ghost more = traced_ids@.take(i + 1);
            if traced_ids[i] == id {
                traced = true;
                assert(more[i as int] == id);
            }
            proof {
                assert(more =~= seen.push(traced_ids@[i as int]));
                if seen.contains(id) {
                    let k = choose|k: int| 0 <= k < seen.len() && seen[k] == id;
                    assert(more[k] == id);
                }
                if more.contains(id) && traced_ids@[i as int] != id {
                    let k = choose|k: int| 0 <= k < more.len() && more[k] == id;
                    assert(seen[k] == id);
                }
            }
            i = i + 1;
        }
        assert(traced_ids@.take(i as int) =~= traced_ids@);
        RepeatTrace {
            id,
            traced,
            input_count: 0,
            window_outputs: 0,
            ref_count: 0,
            output_count: 0,
        }
    }

    /// Counts an element that is taken, for which nothing has been sent yet.
    pub fn take_input(&mut self)
        requires
            old(self).wf(),
            old(self).input_count < usize::MAX,
        ensures
            final(self).wf(),
            final(self).id == old(self).id,
            final(self).traced == old(self).traced,
            final(self).input_count == old(self).input_count + 1,
            final(self).window_outputs == 0,
            final(self).ref_count == old(self).ref_count,
            final(self).output_count == old(self).output_count,
    {
        self.input_count = self.input_count + 1;
        self.window_outputs = 0;
    }

    /// Counts an element of the reference stream and what is sent for it. For
    /// a stop there is a line, if the operator is traced.
    pub fn take_reference<R>(&mut self, reference: &Elem<R>) -> (res: Option<String>)
        requires
            old(self).wf(),
            old(self).ref_count < usize::MAX,
        ensures
            final(self).wf(),
            final(self).id == old(self).id,
            final(self).traced == old(self).traced,
            final(self).input_count == old(self).input_count,
            final(self).window_outputs == old(self).window_outputs + 1,
            final(self).ref_count == old(self).ref_count + 1,
            final(self).output_count == old(self).output_count + 1,
            res is Some <==> old(self).traced && reference is ValStop,
            res matches Some(line) ==> line@ == final(self).window_text(reference.level()),
    {
        self.ref_count = self.ref_count + 1;
        self.window_outputs = self.window_outputs + 1;
        self.output_count = self.output_count + 1;
        match reference {
            Elem::ValStop(_, s) if self.traced => Some(self.window_line(*s)),
            _ => None,
        }
    }

    /// At the end of the stream there is a line, if the operator is traced.
    pub fn close(&self) -> (res: Option<String>)
        ensures
            res is Some <==> self.traced,
            res matches Some(line) ==> line@ == self.closed_text(),
    {
        if self.traced {
            Some(self.closed_line())
        } else {
            None
        }
    }

    fn window_line(&self, ref_stop: StopType) -> (res: String)
        ensures
            res@ == self.window_text(ref_stop as int),
    {
        let mut line = String::new();
        line.append("[repeat-ref-trace] id=");
        push_decimal(&mut line, self.id as u64);
        line.append(" input=");
        push_decimal(&mut line, self.input_count as u64);
        line.append(" window_outputs=");
        push_decimal(&mut line, self.window_outputs as u64);
        line.append(" ref_count=");
        push_decimal(&mut line, self.ref_count as u64);
        line.append(" output_count=");
        push_decimal(&mut line, self.output_count as u64);
        line.append(" ref_stop=");
        push_decimal(&mut line, ref_stop as u64);
        assert(line@ =~= self.window_text(ref_stop as int));
        line
    }

    fn closed_line(&self) -> (res: String)
        ensures
            res@ == self.closed_text(),
    {
        let mut line = String::new();
        line.append("[repeat-ref-trace] id=");
        push_decimal(&mut line, self.id as u64);
        line.append(" input_closed input_count=");
        push_decimal(&mut line, self.input_count as u64);
        line.append(" ref_count=");
        push_decimal(&mut line, self.ref_count as u64);
        line.append(" output_count=");
        push_decimal(&mut line, self.output_count as u64);
        assert(line@ =~= self.closed_text());
        line
    }
}

} // verus!
