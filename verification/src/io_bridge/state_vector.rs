//! Incoming telemetry.

use crate::io_bridge::command_vector::MAX_JOINTS;
use crate::io_bridge::wire::{
    copy_numbers, encoded_all, filled, repeated, shorter, write_numbers,
};
use crate::numeric::binary32::Binary32;
use crate::system::clock::now_ms;
use vstd::prelude::*;

verus! {

/// Standardized representation of the incoming telemetry: an array of fixed size,
/// made once and changed in place with every frame.
#[derive(Debug, Clone)]
pub struct StateVector {
    pub hardware_id: String,
    pub timestamp: u64,
    pub values: [Binary32; MAX_JOINTS],
    pub len: usize,
}

impl View for StateVector {
    type V = Seq<Binary32>;

    /// The entries in use.
    open spec fn view(&self) -> Seq<Binary32> {
        self.values@.take(self.len as int)
    }
}

impl StateVector {
    /// No more entries are in use than there are.
    pub open spec fn wf(self) -> bool {
        self.len <= MAX_JOINTS
    }

    /// All entries, in use or not.
    pub open spec fn entries(self) -> Seq<Binary32> {
        self.values@
    }

    /// State of the hardware `hardware_id`, stamped with the present time.
    pub fn new(hardware_id: &str, values: &[Binary32]) -> (v: StateVector)
        ensures
            v.wf(),
            v.hardware_id@ == hardware_id@,
            v.len == shorter(values@.len(), MAX_JOINTS as nat),
            v.entries() == filled(values@),
            v@ == values@.take(v.len as int),
    {
        let mut v: StateVector = StateVector {
            hardware_id: hardware_id.to_string(),
            timestamp: now_ms(),
            values: repeated(Binary32::zero()),
            len: 0,
        };
        v.set_values(values);
        assert(v.entries() =~= filled(values@));
        assert(v@ =~= values@.take(v.len as int));
        v
    }

    /// Replaces the first entries by `values`, at most `MAX_JOINTS` of them, and
    /// stamps the present time.
    pub fn set_values(&mut self, values: &[Binary32])
        ensures
            final(self).wf(),
            final(self).hardware_id == old(self).hardware_id,
            final(self).len == shorter(values@.len(), MAX_JOINTS as nat),
            final(self)@ == values@.take(final(self).len as int),
            forall|i: int|
                0 <= i < MAX_JOINTS ==> #[trigger] final(self).entries()[i]
                    == if i < values@.len() {
                    values@[i]
                } else {
                    old(self).entries()[i]
                },
    {
        let now: u64 = now_ms();
        self.set_values_at(values, now);
    }

    /// Replaces the first entries by `values`, at most `MAX_JOINTS` of them, with
    /// the time stamp `now`.
    pub fn set_values_at(&mut self, values: &[Binary32], now: u64)
        ensures
            final(self).wf(),
            final(self).hardware_id == old(self).hardware_id,
            final(self).timestamp == now,
            final(self).len == shorter(values@.len(), MAX_JOINTS as nat),
            final(self)@ == values@.take(final(self).len as int),
            forall|i: int|
                0 <= i < MAX_JOINTS ==> #[trigger] final(self).entries()[i]
                    == if i < values@.len() {
                    values@[i]
                } else {
                    old(self).entries()[i]
                },
    {
        let n: usize = copy_numbers(&mut self.values, values);
        self.len = n;
        self.timestamp = now;
        assert(self@ =~= values@.take(n as int));
    }

    /// The entries in use.
    pub fn as_slice(&self) -> (s: &[Binary32])
        requires
            self.wf(),
        ensures
            s@ == self@,
    {
        let all: &[Binary32] = self.values.as_slice();
        let (s, _) = all.split_at(self.len);
        assert(s@ =~= self@);
        s
    }

    /// The entries in use, to be changed.
    pub fn as_mut_slice(&mut self) -> (s: &mut [Binary32])
        requires
            old(self).wf(),
        ensures
            s@ == old(self)@,
            final(self).hardware_id == old(self).hardware_id,
            final(self).timestamp == old(self).timestamp,
            final(self).len == old(self).len,
            final(s)@.len() == s@.len() ==> final(self).entries() == final(s)@
                + old(self).entries().skip(old(self).len as int),
    {
        let n: usize = self.len;
        let all: &mut [Binary32] = &mut self.values;
        let (s, _) = all.split_at_mut(n);
        s
    }

    /// Writes the entries in use to `out`, as far as it has room, and returns the
    /// number of bytes written.
    pub fn write_to(&self, out: &mut [u8]) -> (written: usize)
        requires
            shorter(self.len as nat, old(out)@.len() / 4) <= MAX_JOINTS,
        ensures
            written == 4 * shorter(self.len as nat, old(out)@.len() / 4),
            final(out)@ == encoded_all(self.entries().take(written as int / 4)) + old(out)@.skip(
                written as int,
            ),
    {
        write_numbers(&self.values, self.len, out)
    }
}

} // verus!
