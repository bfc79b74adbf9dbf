//! Removable volumes: what a scan shows of one, and whether the set of
//! mounted volumes has changed.

use vstd::prelude::*;
use vstd::string::*;
use crate::repository::{name_or, name_or_else};
use crate::types::{option_view, string_views, RepositoryInfo, UsbDevice};

verus! {

/// Whether two lists of mount points differ, in length or at some place.
pub fn mounts_changed(previous: &Vec<String>, current: &Vec<String>) -> (changed: bool)
    ensures
        changed == (string_views(previous@) != string_views(current@)),
{
    if previous.len() != current.len() {
        assert(string_views(previous@).len() != string_views(current@).len());
        return true;
    }
    let mut i: usize = 0;
    while i < previous.len()
        invariant
            i <= previous@.len() == current@.len(),
            forall|k: int| 0 <= k < i ==> previous@[k]@ == current@[k]@,
        decreases previous@.len() - i,
    {
        if !previous[i].eq(&current[i]) {
            assert(string_views(previous@)[i as int] != string_views(current@)[i as int]);
            return true;
        }
        i += 1;
    }
    assert(string_views(previous@) =~= string_views(current@));
    false
}

/// What a scan shows of the volume mounted at `mount_point`: the label of
/// its disk, or `Unknown` where no disk is mounted there, and the
/// repositories found on it.
pub fn scanned_device(
    mount_point: &str,
    disk_label: Option<String>,
    repositories: Vec<RepositoryInfo>,
) -> (device: UsbDevice)
    ensures
        device.label@ == name_or(option_view(disk_label), "Unknown"@),
        device.mount_point@ == mount_point@,
        device.uuid is None,
        device.repositories == repositories,
{
    UsbDevice {
        label: name_or_else(disk_label, "Unknown"),
        mount_point: String::from_str(mount_point),
        uuid: None,
        repositories,
    }
}

} // verus!
