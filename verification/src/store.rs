//! Bringing a classroom back from what was stored of it: its devices, their
//! ports and its taps.  Nobody is connected and no device is claimed.

use vstd::prelude::*;
use crate::classroom::{
    dev_index, distinct_devices, find_device, tables_fresh, Classroom, Device, Port, TapAttach,
};
use crate::inventory::Inventory;
use crate::kinds::{ClaimState, DeviceKind, Mode};
use crate::wiring::{attached, set_tap};

verus! {

/// A device as stored.
#[derive(Debug)]
pub struct StoredDevice {
    pub id: String,
    pub kind: DeviceKind,
    pub mac: Option<String>,
}

/// A port as stored, with the device it belongs to.
#[derive(Debug)]
pub struct StoredPort {
    pub device_id: String,
    pub port: Port,
}

/// The stored ports of device `id`, in the order given.
pub open spec fn ports_for(rows: Seq<StoredPort>, id: Seq<char>) -> Seq<Port>
    decreases rows.len(),
{
    if rows.len() == 0 {
        Seq::empty()
    } else {
        ports_for(rows.drop_last(), id) + if rows.last().device_id@ == id {
            seq![rows.last().port]
        } else {
            Seq::empty()
        }
    }
}

/// Stored device `k` is the last stored with its id.
pub open spec fn last_stored(rows: Seq<StoredDevice>, k: int) -> bool {
    forall|k2: int| k < k2 < rows.len() ==> #[trigger] rows[k2].id@ != rows[k].id@
}

/// The link the last stored placement of tap `t` names.
pub open spec fn last_link(rows: Seq<TapAttach>, t: Seq<char>) -> Option<Seq<char>>
    decreases rows.len(),
{
    if rows.len() == 0 {
        None
    } else if rows.last().tap_id@ == t {
        Some(rows.last().link_id@)
    } else {
        last_link(rows.drop_last(), t)
    }
}

/// Device `d` is stored device `k` with no ports yet, unclaimed.
pub open spec fn bare_device(d: Device, s: StoredDevice) -> bool {
    &&& d.id == s.id
    &&& d.kind == s.kind
    &&& d.mac == s.mac
    &&& d.claimed_connection_id is None
}

/// Device `d` comes from the last stored device with its id.
pub open spec fn stored_from(d: Device, rows: Seq<StoredDevice>) -> bool {
    exists|k: int| 0 <= k < rows.len() && #[trigger] bare_device(d, rows[k]) && last_stored(rows, k)
}

fn stored_devices(rows: Vec<StoredDevice>) -> (devs: Vec<Device>)
    ensures
        distinct_devices(devs@),
        forall|i: int| 0 <= i < devs@.len() ==> stored_from(#[trigger] devs@[i], rows@),
        forall|i: int| 0 <= i < devs@.len() ==> (#[trigger] devs@[i]).ports@.len() == 0,
        forall|k: int| 0 <= k < rows@.len() ==> #[trigger] dev_index(devs@, rows@[k].id@) >= 0,
{
    let ghost all = rows@;
    let n = rows.len();
    let mut rest = rows;
    let mut devs: Vec<Device> = Vec::new();
    let mut j: usize = 0;
    while rest.len() > 0
        invariant
            rest@.len() + j == n,
            n == all.len(),
            rest@ == all.skip(j as int),
            distinct_devices(devs@),
            forall|i: int| 0 <= i < devs@.len() ==> stored_from(#[trigger] devs@[i], all.take(j as int)),
            forall|i: int| 0 <= i < devs@.len() ==> (#[trigger] devs@[i]).ports@.len() == 0,
            forall|k: int| 0 <= k < j ==> #[trigger] dev_index(devs@, all[k].id@) >= 0,
        decreases rest@.len(),
    {
        let s = rest.remove(0);
        assert(s == all[j as int]);
        let d = Device { id: s.id, kind: s.kind, mac: s.mac, claimed_connection_id: None, ports: Vec::new() };
        let ghost old_devs = devs@;
        let ghost sid = d.id@;
        match find_device(&devs, d.id.as_str()) {
            Some(i) => {
                devs.set(i, d);
                proof {
                    assert forall|a: int, b: int| 0 <= a < b < devs@.len() implies #[trigger] devs@[a].id@
                        != #[trigger] devs@[b].id@ by {
                        assert(old_devs[a].id@ != old_devs[b].id@);
                    }
                    assert forall|x: int| 0 <= x < devs@.len() implies stored_from(#[trigger] devs@[x], all.take(j + 1)) by {
                        if x == i {
                            assert(bare_device(devs@[x], all.take(j + 1)[j as int]));
                            assert(last_stored(all.take(j + 1), j as int));
                        } else {
                            let k = choose|k: int|
                                0 <= k < j && #[trigger] bare_device(old_devs[x], all.take(j as int)[k]) && last_stored(all.take(j as int), k);
                            assert(all.take(j as int)[k] == all.take(j + 1)[k]);
                            assert(devs@[x] == old_devs[x]);
                            assert(old_devs[x].id@ != old_devs[i as int].id@);
                            assert(last_stored(all.take(j + 1), k));
                        }
                    }
                    assert forall|k: int| 0 <= k < j + 1 implies #[trigger] dev_index(devs@, all[k].id@) >= 0 by {
                        if k == j {
                            assert(devs@[i as int].id@ == all[k].id@);
                        } else {
                            let x = dev_index(old_devs, all[k].id@);
                            assert(devs@[x].id@ == all[k].id@);
                        }
                    }
                }
            },
            None => {
                devs.push(d);
                proof {
                    let last = old_devs.len() as int;
                    assert forall|a: int, b: int| 0 <= a < b < devs@.len() implies #[trigger] devs@[a].id@
                        != #[trigger] devs@[b].id@ by {
                        if b == last {
                            assert(old_devs[a].id@ != sid);
                        } else {
                            assert(old_devs[a].id@ != old_devs[b].id@);
                        }
                    }
                    assert forall|x: int| 0 <= x < devs@.len() implies stored_from(#[trigger] devs@[x], all.take(j + 1)) by {
                        if x == last {
                            assert(bare_device(devs@[x], all.take(j + 1)[j as int]));
                            assert(last_stored(all.take(j + 1), j as int));
                        } else {
                            let k = choose|k: int|
                                0 <= k < j && #[trigger] bare_device(old_devs[x], all.take(j as int)[k]) && last_stored(all.take(j as int), k);
                            assert(all.take(j as int)[k] == all.take(j + 1)[k]);
                            assert(devs@[x] == old_devs[x]);
                            assert(old_devs[x].id@ != sid);
                            assert(last_stored(all.take(j + 1), k));
                        }
                    }
                    assert forall|k: int| 0 <= k < j + 1 implies #[trigger] dev_index(devs@, all[k].id@) >= 0 by {
                        if k == j {
                            assert(devs@[last].id@ == all[k].id@);
                        } else {
                            let x = dev_index(old_devs, all[k].id@);
                            assert(devs@[x].id@ == all[k].id@);
                        }
                    }
                }
            },
        }
        assert(rest@ =~= all.skip(j + 1));
        j += 1;
    }
    assert(all.take(j as int) =~= all);
    devs
}

fn attach_ports(devs: &mut Vec<Device>, rows: Vec<StoredPort>)
    requires
        distinct_devices(old(devs)@),
        forall|i: int| 0 <= i < old(devs)@.len() ==> (#[trigger] old(devs)@[i]).ports@.len() == 0,
    ensures
        final(devs)@.len() == old(devs)@.len(),
        distinct_devices(final(devs)@),
        forall|i: int|
            0 <= i < final(devs)@.len() ==> #[trigger] bare_kept(old(devs)@[i], final(devs)@[i]) && final(devs)@[i].ports@
                == ports_for(rows@, old(devs)@[i].id@),
{
    let ghost o = devs@;
    let ghost all = rows@;
    let n = rows.len();
    let mut rest = rows;
    let mut j: usize = 0;
    assert(all.take(0) =~= Seq::<StoredPort>::empty());
    while rest.len() > 0
        invariant
            rest@.len() + j == n,
            n == all.len(),
            rest@ == all.skip(j as int),
            devs@.len() == o.len(),
            distinct_devices(o),
            forall|i: int|
                0 <= i < devs@.len() ==> bare_kept(o[i], #[trigger] devs@[i]) && devs@[i].ports@ == ports_for(
                    all.take(j as int),
                    o[i].id@,
                ),
        decreases rest@.len(),
    {
        let row = rest.remove(0);
        assert(row == all[j as int]);
        let ghost before = devs@;
        proof {
            assert(all.take(j + 1).drop_last() =~= all.take(j as int));
            assert(all.take(j + 1).last() == row);
            assert(distinct_devices(before)) by {
                assert forall|a: int, b: int| 0 <= a < b < before.len() implies #[trigger] before[a].id@
                    != #[trigger] before[b].id@ by {
                    assert(bare_kept(o[a], before[a]));
                    assert(bare_kept(o[b], before[b]));
                }
            }
        }
        match find_device(devs, row.device_id.as_str()) {
            Some(d) => {
                let mut dev = devs[d].copy();
                dev.ports.push(row.port);
                devs.set(d, dev);
                proof {
                    assert forall|i: int| 0 <= i < devs@.len() implies bare_kept(o[i], #[trigger] devs@[i])
                        && devs@[i].ports@ == ports_for(all.take(j + 1), o[i].id@) by {
                        assert(bare_kept(o[i], before[i]));
                        if i == d {
                            assert(devs@[i].ports@ =~= before[i].ports@ + seq![row.port]);
                        } else {
                            assert(devs@[i] == before[i]);
                            assert(before[i].id@ != before[d as int].id@) by {
                                if i < d {
                                    assert(before[i].id@ != before[d as int].id@);
                                } else {
                                    assert(before[d as int].id@ != before[i].id@);
                                }
                            }
                        }
                    }
                }
            },
            None => {
                proof {
                    assert forall|i: int| 0 <= i < devs@.len() implies bare_kept(o[i], #[trigger] devs@[i])
                        && devs@[i].ports@ == ports_for(all.take(j + 1), o[i].id@) by {
                        assert(bare_kept(o[i], before[i]));
                        if before[i].id@ == row.device_id@ {
                            assert(exists|x: int| 0 <= x < before.len() && #[trigger] before[x].id@ == row.device_id@);
                        }
                    }
                }
            },
        }
        assert(rest@ =~= all.skip(j + 1));
        j += 1;
    }
    assert(all.take(j as int) =~= all);
    proof {
        assert forall|a: int, b: int| 0 <= a < b < devs@.len() implies #[trigger] devs@[a].id@ != #[trigger] devs@[b].id@ by {
            assert(bare_kept(o[a], devs@[a]));
            assert(bare_kept(o[b], devs@[b]));
        }
    }
}

/// `n` is `o` with nothing but its ports changed.
pub open spec fn bare_kept(o: Device, n: Device) -> bool {
    n.id == o.id && n.kind == o.kind && n.mac == o.mac && n.claimed_connection_id == o.claimed_connection_id
}

fn stored_taps(rows: Vec<TapAttach>) -> (taps: Vec<TapAttach>)
    ensures
        crate::classroom::distinct_taps(taps@),
        forall|x: Seq<char>| #[trigger] attached(taps@, x) == last_link(rows@, x),
{
    let ghost all = rows@;
    let n = rows.len();
    let mut rest = rows;
    let mut taps: Vec<TapAttach> = Vec::new();
    let mut j: usize = 0;
    assert(all.take(0) =~= Seq::<TapAttach>::empty());
    while rest.len() > 0
        invariant
            rest@.len() + j == n,
            n == all.len(),
            rest@ == all.skip(j as int),
            crate::classroom::distinct_taps(taps@),
            forall|x: Seq<char>| #[trigger] attached(taps@, x) == last_link(all.take(j as int), x),
        decreases rest@.len(),
    {
        let row = rest.remove(0);
        assert(row == all[j as int]);
        let ghost before = taps@;
        set_tap(&mut taps, row.tap_id.as_str(), row.link_id);
        proof {
            assert(all.take(j + 1).drop_last() =~= all.take(j as int));
            assert(all.take(j + 1).last() == row);
            assert forall|x: Seq<char>| #[trigger] attached(taps@, x) == last_link(all.take(j + 1), x) by {
                assert(attached(before, x) == last_link(all.take(j as int), x));
            }
        }
        assert(rest@ =~= all.skip(j + 1));
        j += 1;
    }
    assert(all.take(j as int) =~= all);
    taps
}

/// Device `d` is a stored device, the last stored with its id, with the
/// ports stored for it, unclaimed.
pub open spec fn restored_device(d: Device, devices: Seq<StoredDevice>, ports: Seq<StoredPort>) -> bool {
    stored_from(d, devices) && d.ports@ == ports_for(ports, d.id@)
}

impl Classroom {
    /// A classroom brought back from storage: its devices with their ports
    /// (a later stored device replaces an earlier one with its id; a port
    /// of no stored device is dropped), its taps (the last placement of a
    /// tap counts), nobody connected, nothing claimed, no frames or logs,
    /// and the tables rebuilt.
    pub fn restore(
        classroom_id: String,
        title: String,
        claim_state: ClaimState,
        mode: Mode,
        created_at: i64,
        devices: Vec<StoredDevice>,
        ports: Vec<StoredPort>,
        taps: Vec<TapAttach>,
    ) -> (c: Classroom)
        ensures
            c.wf(),
            tables_fresh(c),
            c.classroom_id == classroom_id,
            c.title == title,
            c.claim_state == claim_state,
            c.mode == mode,
            c.created_at == created_at,
            c.connections@.len() == 0,
            c.frames@.len() == 0,
            c.chat_log@.len() == 0,
            c.tap_log@.len() == 0,
            forall|i: int| 0 <= i < c.devices@.len() ==> restored_device(#[trigger] c.devices@[i], devices@, ports@),
            forall|k: int| 0 <= k < devices@.len() ==> #[trigger] dev_index(c.devices@, devices@[k].id@) >= 0,
            forall|x: Seq<char>| #[trigger] attached(c.tap_attaches@, x) == last_link(taps@, x),
    {
        let ghost drows = devices@;
        let ghost prows = ports@;
        let mut devs = stored_devices(devices);
        let ghost bare = devs@;
        attach_ports(&mut devs, ports);
        proof {
            assert forall|i: int| 0 <= i < devs@.len() implies restored_device(#[trigger] devs@[i], drows, prows) by {
                assert(bare_kept(bare[i], devs@[i]));
                assert(stored_from(bare[i], drows));
                let k = choose|k: int| 0 <= k < drows.len() && #[trigger] bare_device(bare[i], drows[k]) && last_stored(drows, k);
                assert(bare_device(devs@[i], drows[k]));
            }
            assert forall|k: int| 0 <= k < drows.len() implies #[trigger] dev_index(devs@, drows[k].id@) >= 0 by {
                let x = dev_index(bare, drows[k].id@);
                assert(bare_kept(bare[x], devs@[x]));
                assert(devs@[x].id@ == drows[k].id@);
            }
        }
        let tap_list = stored_taps(taps);
        let mut c = Classroom {
            classroom_id,
            title,
            claim_state,
            mode,
            created_at,
            inventory: Inventory::default(),
            devices: devs,
            connections: Vec::new(),
            links: Vec::new(),
            mac_table: Vec::new(),
            arp_table: Vec::new(),
            tap_attaches: tap_list,
            chat_log: Vec::new(),
            frames: Vec::new(),
            tap_log: Vec::new(),
            id_seq: 1,
            mac_seq: 1,
        };
        proof {
            assert forall|d: int|
                0 <= d < c.devices@.len() && (#[trigger] c.devices@[d]).claimed_connection_id is Some implies false by {
                assert(restored_device(c.devices@[d], drows, prows));
                let k = choose|k: int| 0 <= k < drows.len() && #[trigger] bare_device(c.devices@[d], drows[k]) && last_stored(drows, k);
            }
        }
        c.rebuild_tables();
        c
    }
}

} // verus!
