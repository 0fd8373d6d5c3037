//! Commands sent to the motors.

use crate::io_bridge::wire::{
    copy_numbers, decoded_all, encoded_all, filled, repeated, shorter, write_numbers,
};
use crate::numeric::binary32::{number_zero, Binary32};
use vstd::prelude::*;

verus! {

/// Fixed maximum size of the state and command vectors.
///
/// 32 joints cover any robot and keep both vectors static arrays: nothing is
/// allocated during the control loop.
pub const MAX_JOINTS: usize = 32;

/// Standardized representation of the commands sent to the motors: an array of
/// fixed size and the number of entries in use.
#[derive(Debug, Clone, Copy)]
pub struct CommandVector {
    pub target_actuators: [Binary32; MAX_JOINTS],
    pub len: usize,
}

impl View for CommandVector {
    type V = Seq<Binary32>;

    /// The entries in use.
    open spec fn view(&self) -> Seq<Binary32> {
        self.target_actuators@.take(self.len as int)
    }
}

impl CommandVector {
    /// No more entries are in use than there are.
    pub open spec fn wf(self) -> bool {
        self.len <= MAX_JOINTS
    }

    /// All entries, in use or not.
    pub open spec fn entries(self) -> Seq<Binary32> {
        self.target_actuators@
    }

    /// Empty vector, all zeros.
    pub fn new() -> (v: CommandVector)
        ensures
            v.wf(),
            v.len == 0,
            v.entries() == filled(Seq::empty()),
    {
        CommandVector::zeros(0)
    }

    /// Zero vector of length `joint_count`, at most `MAX_JOINTS`: what the emergency
    /// stop and the watchdog command.
    pub fn zeros(joint_count: usize) -> (v: CommandVector)
        ensures
            v.wf(),
            v.len == shorter(joint_count as nat, MAX_JOINTS as nat),
            v.entries() == filled(Seq::empty()),
            v@ == Seq::new(v.len as nat, |i: int| number_zero()),
    {
        let v: CommandVector = CommandVector {
            target_actuators: repeated(Binary32::zero()),
            len: if joint_count < MAX_JOINTS {
                joint_count
            } else {
                MAX_JOINTS
            },
        };
        assert(v.entries() =~= filled(Seq::empty()));
        assert(v@ =~= Seq::new(v.len as nat, |i: int| number_zero()));
        v
    }

    /// Copies `values`, cut to `MAX_JOINTS` of them.
    pub fn from_slice(values: &[Binary32]) -> (v: CommandVector)
        ensures
            v.wf(),
            v.len == shorter(values@.len(), MAX_JOINTS as nat),
            v.entries() == filled(values@),
            v@ == values@.take(v.len as int),
    {
        let mut v: CommandVector = CommandVector::new();
        let n: usize = copy_numbers(&mut v.target_actuators, values);
        v.len = n;
        assert(v.entries() =~= filled(values@));
        assert(v@ =~= values@.take(n as int));
        v
    }

    /// Reads the numbers that `bytes` hold, at most `MAX_JOINTS` of them.
    pub fn from_bytes(bytes: &[u8]) -> (v: CommandVector)
        ensures
            v.wf(),
            v.len == shorter(bytes@.len() / 4, MAX_JOINTS as nat),
            v.entries() == filled(decoded_all(bytes@)),
            v@ == decoded_all(bytes@).take(v.len as int),
    {
        let mut v: CommandVector = CommandVector::new();
        let whole: usize = bytes.len() / 4;
        let n: usize = if whole < MAX_JOINTS {
            whole
        } else {
            MAX_JOINTS
        };
        let mut i: usize = 0;
        while i < n
            invariant
                i <= n <= MAX_JOINTS,
                n <= bytes@.len() / 4,
                forall|j: int|
                    0 <= j < i ==> #[trigger] v.target_actuators@[j] == decoded_all(bytes@)[j],
                forall|j: int|
                    i <= j < MAX_JOINTS ==> #[trigger] v.target_actuators@[j] == number_zero(),
            decreases n - i,
        {
            let k: usize = 4 * i;
            proof {
                assert(bytes@.subrange(4 * i as int, 4 * i as int + 4) =~= seq![
                    bytes@[k as int],
                    bytes@[k + 1],
                    bytes@[k + 2],
                    bytes@[k + 3],
                ]);
            }
            v.target_actuators[i] =
            Binary32::from_le_bytes(bytes[k], bytes[k + 1], bytes[k + 2], bytes[k + 3]);
            i = i + 1;
        }
        v.len = n;
        assert(v.entries() =~= filled(decoded_all(bytes@)));
        assert(v@ =~= decoded_all(bytes@).take(n as int));
        v
    }

    /// The entries in use.
    pub fn as_slice(&self) -> (s: &[Binary32])
        requires
            self.wf(),
        ensures
            s@ == self@,
    {
        let all: &[Binary32] = self.target_actuators.as_slice();
        let (s, _) = all.split_at(self.len);
        assert(s@ =~= self@);
        s
    }

    /// The entries in use, to be changed.
    pub fn as_mut_slice(&mut self) -> (s: &mut [Binary32])
        requires
            old(self).wf(),
        ensures
            s@ == old(self)@,
            final(self).len == old(self).len,
            final(s)@.len() == s@.len() ==> final(self).entries() == final(s)@
                + old(self).entries().skip(old(self).len as int),
    {
        let n: usize = self.len;
        let all: &mut [Binary32] = &mut self.target_actuators;
        let (s, _) = all.split_at_mut(n);
        s
    }

    /// Writes the entries in use to `out`, as far as it has room, and returns the
    /// number of bytes written.
    pub fn write_to(&self, out: &mut [u8]) -> (written: usize)
        requires
            shorter(self.len as nat, old(out)@.len() / 4) <= MAX_JOINTS,
        ensures
            written == 4 * shorter(self.len as nat, old(out)@.len() / 4),
            final(out)@ == encoded_all(self.entries().take(written as int / 4)) + old(out)@.skip(
                written as int,
            ),
    {
        write_numbers(&self.target_actuators, self.len, out)
    }
}

impl Default for CommandVector {
    fn default() -> (v: CommandVector)
        ensures
            v.wf(),
            v.len == 0,
            v.entries() == filled(Seq::empty()),
    {
        CommandVector::new()
    }
}

} // verus!
