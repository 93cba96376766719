//! The device registry: a name-keyed mapping from device name to device
//! record, held as a sequence of devices with pairwise distinct names so
//! that iteration order (and with it the order of query results) is the
//! insertion order.

use vstd::prelude::*;

use crate::device::Device;
use crate::device::DeviceView;
use crate::device::NetError;

verus! {

/// Whether some registered device carries the name `n`.
pub open spec fn reg_has(s: Seq<DeviceView>, n: Seq<char>) -> bool {
    exists|i: int| 0 <= i < s.len() && s[i].name == n
}

/// The index of the device named `n` (meaningful under `reg_wf`).
pub open spec fn reg_idx(s: Seq<DeviceView>, n: Seq<char>) -> int {
    choose|i: int| 0 <= i < s.len() && s[i].name == n
}

/// The device registered under `n` (meaningful when `reg_has` holds).
pub open spec fn reg_at(s: Seq<DeviceView>, n: Seq<char>) -> DeviceView {
    s[reg_idx(s, n)]
}

/// Well-formedness: names are pairwise distinct, so each name maps to
/// exactly one device.
pub open spec fn reg_wf(s: Seq<DeviceView>) -> bool {
    forall|i: int, j: int| 0 <= i < j < s.len() ==> s[i].name != s[j].name
}

/// Under `reg_wf`, the index chosen for a name is the index where the
/// name stands.
pub proof fn lemma_reg_idx(s: Seq<DeviceView>, i: int)
    requires
        reg_wf(s),
        0 <= i < s.len(),
    ensures
        reg_has(s, s[i].name),
        reg_idx(s, s[i].name) == i,
{
    assert(reg_has(s, s[i].name));
    let j = reg_idx(s, s[i].name);
    if i < j {
        assert(s[i].name != s[j].name);
    } else if j < i {
        assert(s[j].name != s[i].name);
    }
}

/// The source of truth for which devices exist.
pub struct Registry {
    pub devices: Vec<Device>,
}

impl View for Registry {
    type V = Seq<DeviceView>;

    open spec fn view(&self) -> Seq<DeviceView> {
        self.devices@.map_values(|d: Device| d@)
    }
}

impl Registry {
    /// An empty registry.
    pub fn new() -> (r: Registry)
        ensures
            r@.len() == 0,
    {
        Registry { devices: Vec::new() }
    }

    /// The index of the entry named `name`, if one exists.
    pub fn position_of(&self, name: &String) -> (r: Option<usize>)
        ensures
            match r {
                Some(i) => i < self@.len() && self@[i as int].name == name@,
                None => !reg_has(self@, name@),
            },
    {
        let mut i: usize = 0;
        while i < self.devices.len()
            invariant
                i <= self@.len(),
                self@.len() == self.devices@.len(),
                forall|k: int| 0 <= k < i ==> self@[k].name != name@,
            decreases self@.len() - i,
        {
            if self.devices[i].name.eq(name) {
                return Some(i);
            }
            i = i + 1;
        }
        None
    }

    /// Inserts the device under its name, overwriting any entry that
    /// already carries that name.
    pub fn register(&mut self, device: Device)
        requires
            reg_wf(old(self)@),
        ensures
            reg_wf(final(self)@),
            reg_has(old(self)@, device@.name) ==> final(self)@ == old(self)@.update(
                reg_idx(old(self)@, device@.name),
                device@,
            ),
            !reg_has(old(self)@, device@.name) ==> final(self)@ == old(self)@.push(device@),
            reg_has(final(self)@, device@.name),
            reg_at(final(self)@, device@.name) == device@,
    {
        let pos = self.position_of(&device.name);
        let ghost dv = device@;
        match pos {
            Some(i) => {
                proof {
                    lemma_reg_idx(self@, i as int);
                }
                self.devices.set(i, device);
                proof {
                    assert(self@ =~= old(self)@.update(i as int, dv));
                    lemma_reg_idx(self@, i as int);
                }
            },
            None => {
                self.devices.push(device);
                proof {
                    assert(self@ =~= old(self)@.push(dv));
                    lemma_reg_idx(self@, self@.len() - 1);
                }
            },
        }
    }

    /// Returns the device registered under `name`, or `NotFound`.
    pub fn lookup(&self, name: &String) -> (r: Result<Device, NetError>)
        requires
            reg_wf(self@),
        ensures
            match r {
                Ok(d) => reg_has(self@, name@) && d@ == reg_at(self@, name@),
                Err(e) => e == NetError::NotFound && !reg_has(self@, name@),
            },
    {
        match self.position_of(name) {
            Some(i) => {
                proof {
                    lemma_reg_idx(self@, i as int);
                }
                Ok(self.devices[i].duplicate())
            },
            None => Err(NetError::NotFound),
        }
    }

    /// Deletes the entry named `name`; fails with `NotFound` (and changes
    /// nothing) if no such entry exists.
    pub fn remove(&mut self, name: &String) -> (r: Result<(), NetError>)
        requires
            reg_wf(old(self)@),
        ensures
            reg_wf(final(self)@),
            match r {
                Ok(()) => reg_has(old(self)@, name@) && final(self)@ == old(self)@.remove(
                    reg_idx(old(self)@, name@),
                ) && !reg_has(final(self)@, name@),
                Err(e) => e == NetError::NotFound && !reg_has(old(self)@, name@) && final(self)@
                    == old(self)@,
            },
    {
        match self.position_of(name) {
            Some(i) => {
                proof {
                    lemma_reg_idx(self@, i as int);
                }
                self.devices.remove(i);
                proof {
                    assert(self@ =~= old(self)@.remove(i as int));
                    assert forall|k: int| 0 <= k < self@.len() implies self@[k].name
                        != name@ by {
                        if k < i {
                            assert(self@[k] == old(self)@[k]);
                        } else {
                            assert(self@[k] == old(self)@[k + 1]);
                        }
                    }
                }
                Ok(())
            },
            None => Err(NetError::NotFound),
        }
    }
}

} // verus!
