//! Devices: provisioned machines as the bare-metal provider reports them.

use vstd::prelude::*;

verus! {

/// The provider's plan descriptor attached to a device: the machine's
/// hardware class (SKU) string.
#[derive(Debug)]
pub struct Plan {
    pub class: String,
}

impl Clone for Plan {
    fn clone(&self) -> (r: Self)
        ensures
            r == *self,
    {
        Plan { class: self.class.clone() }
    }
}

/// How a device is billed.  Only spot instances belong to this fleet.
#[derive(Clone, Copy, Debug, PartialEq, Eq, Structural)]
pub enum DeviceType {
    SpotInstance,
    OnDemand,
}

/// The provider's lifecycle state of a device.
#[derive(Clone, Copy, Debug, PartialEq, Eq, Structural)]
pub enum DeviceState {
    Provisioning,
    Active,
    Queued,
}

/// A provisioned machine as the provider reports it.  `created_at` is the
/// creation time in whole seconds since the Unix epoch; age thresholds
/// passed to the library are expressed on the same clock.
#[derive(Debug)]
pub struct Device {
    pub hostname: String,
    pub id: String,
    pub short_id: String,
    pub created_at: i64,
    pub device_type: DeviceType,
    pub state: DeviceState,
    pub ipxe_script_url: Option<String>,
    pub spot_instance: bool,
    pub plan: Plan,
    pub tags: Vec<String>,
}

impl Device {
    /// The device carries a tag whose contents are `t`.
    pub open spec fn spec_has_tag(self, t: Seq<char>) -> bool {
        exists|i: int| 0 <= i < self.tags@.len() && self.tags@[i]@ == t
    }

    /// Whether this device carries tag `t`, compared by contents.
    pub fn has_tag(&self, t: &str) -> (r: bool)
        ensures
            r == self.spec_has_tag(t@),
    {
        let mut i: usize = 0;
        while i < self.tags.len()
            invariant
                i <= self.tags@.len(),
                forall|k: int| 0 <= k < i ==> self.tags@[k]@ != t@,
            decreases self.tags@.len() - i,
        {
            if crate::util::str_eq(self.tags[i].as_str(), t) {
                return true;
            }
            i += 1;
        }
        false
    }

    /// The device carries every tag in `wanted` (its tag set is a
    /// superset of `wanted`, compared by contents).
    pub open spec fn spec_has_all_tags(self, wanted: Seq<String>) -> bool {
        forall|i: int| 0 <= i < wanted.len() ==> self.spec_has_tag(#[trigger] wanted[i]@)
    }

    /// Whether this device carries every tag in `wanted`.
    pub fn has_all_tags(&self, wanted: &Vec<String>) -> (r: bool)
        ensures
            r == self.spec_has_all_tags(wanted@),
    {
        let mut i: usize = 0;
        while i < wanted.len()
            invariant
                i <= wanted@.len(),
                forall|k: int| 0 <= k < i ==> self.spec_has_tag(#[trigger] wanted@[k]@),
            decreases wanted@.len() - i,
        {
            if !self.has_tag(wanted[i].as_str()) {
                return false;
            }
            i += 1;
        }
        true
    }
}

} // verus!
