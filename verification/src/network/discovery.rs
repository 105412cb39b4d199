//! Device discovery: the announce datagram and the registry of live peers.
//!
//! A device tells the network that it is there by sending the text
//! `CLIPBRIDGE_DISCOVERY:<device id>` to the discovery port every few seconds.
//! Whoever hears such a datagram from another device records the sender and
//! forgets every device that has been silent for thirty seconds.

use crate::foreign::{lossy_text, text_of, unix_millis};
use crate::network::address::SocketAddress;
use vstd::prelude::*;
use vstd::utf8::*;

verus! {

/// The UDP port that announces are sent to and heard on.
pub const DISCOVERY_PORT: u16 = 7878;

/// A device that has been silent for this many seconds is forgotten.
pub const DEVICE_TTL_SECS: u64 = 30;

/// Seconds between two announces.
pub const ANNOUNCE_INTERVAL_SECS: u64 = 5;

/// Seconds after which a listener that heard nothing looks at its running flag
/// again.
pub const LISTEN_TIMEOUT_SECS: u64 = 1;

/// The most bytes that are read of one datagram.
pub const MAX_DATAGRAM_LEN: usize = 1024;

/// The multicast group 239.255.77.77 on the discovery port.
pub open spec fn spec_discovery_target() -> SocketAddress {
    SocketAddress::V4 { ip: 0xEFFF_4D4D, port: DISCOVERY_PORT }
}

/// Where announces are sent.
#[verifier::when_used_as_spec(spec_discovery_target)]
pub fn discovery_target() -> (target: SocketAddress)
    ensures
        target == spec_discovery_target(),
{
    SocketAddress::v4(239, 255, 77, 77, DISCOVERY_PORT)
}

/// The text that every announce starts with: the magic word and a colon.
pub open spec fn announce_prefix() -> Seq<char> {
    "CLIPBRIDGE_DISCOVERY:"@
}

/// The announce of a device, as text.
pub open spec fn announce_text(device_id: Seq<char>) -> Seq<char> {
    announce_prefix() + device_id
}

/// The device id in an announce text, if the text is an announce.
pub open spec fn strip_announce(text: Seq<char>) -> Option<Seq<char>> {
    if announce_prefix().is_prefix_of(text) {
        Some(text.skip(announce_prefix().len() as int))
    } else {
        None
    }
}

/// The device id that a datagram announces, if it is an announce.
pub open spec fn announced_id(datagram: Seq<u8>) -> Option<Seq<char>> {
    strip_announce(text_of(datagram))
}

/// Builds the datagram that announces `device_id`.
pub fn announcement(device_id: &str) -> (datagram: Vec<u8>)
    ensures
        datagram@ == encode_utf8(announce_text(device_id@)),
{
    let text = String::from_str("CLIPBRIDGE_DISCOVERY:").concat(device_id);
    text.as_str().as_bytes_vec()
}

/// Reads a datagram as an announce. Returns the announced device id, or `None`
/// for a datagram that does not start with the magic word and a colon.
pub fn parse_announce(datagram: &[u8]) -> (id: Option<String>)
    ensures
        match id {
            Some(s) => announced_id(datagram@) == Some(s@),
            None => announced_id(datagram@) is None,
        },
{
    let text = lossy_text(datagram);
    let prefix = "CLIPBRIDGE_DISCOVERY:";
    proof {
        reveal_strlit("CLIPBRIDGE_DISCOVERY:");
    }
    let n = text.as_str().unicode_len();
    if n < 21 {
        return None;
    }
    let mut i: usize = 0;
    while i < 21
        invariant
            i <= 21 <= n,
            n == text@.len(),
            text@ == text_of(datagram@),
            prefix@ == announce_prefix(),
            prefix@.len() == 21,
            forall|j: int| 0 <= j < i ==> text@[j] == prefix@[j],
        decreases 21 - i,
    {
        if text.as_str().get_char(i) != prefix.get_char(i) {
            assert(text@.subrange(0, 21)[i as int] == text@[i as int]);
            return None;
        }
        i += 1;
    }
    assert(announce_prefix() =~= text@.subrange(0, 21));
    Some(String::from_str(text.as_str().substring_char(21, n)))
}

/// A peer that has announced itself.
#[derive(Debug)]
pub struct DiscoveredDevice {
    pub device_id: String,
    pub addr: SocketAddress,
    /// Unix seconds at which the device was last heard.
    pub last_seen: u64,
}

/// A discovered device as a mathematical value.
pub struct DeviceView {
    pub device_id: Seq<char>,
    pub addr: SocketAddress,
    pub last_seen: u64,
}

impl View for DiscoveredDevice {
    type V = DeviceView;

    open spec fn view(&self) -> DeviceView {
        DeviceView { device_id: self.device_id@, addr: self.addr, last_seen: self.last_seen }
    }
}

impl Clone for DiscoveredDevice {
    fn clone(&self) -> (copy: Self)
        ensures
            copy@ == self@,
    {
        DiscoveredDevice {
            device_id: self.device_id.clone(),
            addr: self.addr,
            last_seen: self.last_seen,
        }
    }
}

/// The devices of a list, as mathematical values.
pub open spec fn device_views(devices: Seq<DiscoveredDevice>) -> Seq<DeviceView> {
    devices.map_values(|d: DiscoveredDevice| d@)
}

/// `devices[i]` is the first entry for `id`.
pub open spec fn first_entry(devices: Seq<DeviceView>, id: Seq<char>, i: int) -> bool {
    &&& 0 <= i < devices.len()
    &&& devices[i].device_id == id
    &&& forall|j: int| 0 <= j < i ==> devices[j].device_id != id
}

/// Whether the list has an entry for `id`.
pub open spec fn knows(devices: Seq<DeviceView>, id: Seq<char>) -> bool {
    exists|i: int| 0 <= i < devices.len() && #[trigger] devices[i].device_id == id
}

/// The list after `id` has been heard from `addr` at `now`: its entry is
/// refreshed in place, or added at the end if there was none.
pub open spec fn upserted(
    devices: Seq<DeviceView>,
    id: Seq<char>,
    addr: SocketAddress,
    now: u64,
) -> Seq<DeviceView> {
    let entry = DeviceView { device_id: id, addr, last_seen: now };
    if exists|i: int| first_entry(devices, id, i) {
        devices.update(choose|i: int| first_entry(devices, id, i), entry)
    } else {
        devices.push(entry)
    }
}

/// Whether a device heard at `last_seen` still counts as present at `now`.
pub open spec fn is_live(last_seen: u64, now: u64) -> bool {
    now - last_seen < DEVICE_TTL_SECS
}

/// The list without the devices that have fallen silent.
pub open spec fn pruned(devices: Seq<DeviceView>, now: u64) -> Seq<DeviceView> {
    devices.filter(|d: DeviceView| is_live(d.last_seen, now))
}

/// The registry of a device `own_id` after it has received `datagram` from
/// `addr` at `now`. An announce of another device refreshes or adds that
/// device and then drops the silent ones; anything else changes nothing.
pub open spec fn heard(
    devices: Seq<DeviceView>,
    own_id: Seq<char>,
    datagram: Seq<u8>,
    addr: SocketAddress,
    now: u64,
) -> Seq<DeviceView> {
    match announced_id(datagram) {
        Some(id) => if id == own_id {
            devices
        } else {
            pruned(upserted(devices, id, addr, now), now)
        },
        None => devices,
    }
}

/// No two entries of the list are for the same device.
pub open spec fn distinct_ids(devices: Seq<DeviceView>) -> bool {
    forall|i: int, j: int|
        0 <= i < devices.len() && 0 <= j < devices.len() && i != j ==> devices[i].device_id
            != devices[j].device_id
}

/// What is on a pruned list was on the list and is live; what was on the
/// list and is live is on the pruned list; distinct ids stay distinct.
pub proof fn lemma_pruned(devices: Seq<DeviceView>, now: u64)
    ensures
        forall|i: int|
            0 <= i < pruned(devices, now).len() ==> is_live(
                (#[trigger] pruned(devices, now)[i]).last_seen,
                now,
            ) && knows(devices, pruned(devices, now)[i].device_id) && devices.contains(
                pruned(devices, now)[i],
            ),
        forall|i: int|
            0 <= i < devices.len() && is_live((#[trigger] devices[i]).last_seen, now) ==> pruned(
                devices,
                now,
            ).contains(devices[i]),
        distinct_ids(devices) ==> distinct_ids(pruned(devices, now)),
    decreases devices.len(),
{
    reveal(Seq::filter);
    let live = |d: DeviceView| is_live(d.last_seen, now);
    if devices.len() > 0 {
        let front = devices.drop_last();
        let last = devices.last();
        lemma_pruned(front, now);
        let kept = pruned(front, now);
        assert(pruned(devices, now) == if live(last) {
            kept.push(last)
        } else {
            kept
        });
        assert forall|i: int| 0 <= i < pruned(devices, now).len() implies is_live(
            (#[trigger] pruned(devices, now)[i]).last_seen,
            now,
        ) && knows(devices, pruned(devices, now)[i].device_id) && devices.contains(
            pruned(devices, now)[i],
        ) by {
            if i < kept.len() {
                let d = kept[i];
                assert(front.contains(d));
                let k = choose|k: int| 0 <= k < front.len() && front[k] == d;
                assert(devices[k] == d);
            } else {
                assert(devices[devices.len() - 1] == last);
            }
        }
        assert forall|i: int|
            0 <= i < devices.len() && is_live(
                (#[trigger] devices[i]).last_seen,
                now,
            ) implies pruned(devices, now).contains(devices[i]) by {
            if i < front.len() {
                assert(front[i] == devices[i]);
                assert(kept.contains(front[i]));
                let k = choose|k: int| 0 <= k < kept.len() && kept[k] == front[i];
                assert(pruned(devices, now)[k] == devices[i]);
            } else {
                assert(pruned(devices, now)[kept.len() as int] == devices[i]);
            }
        }
        if distinct_ids(devices) {
            assert(distinct_ids(front)) by {
                assert forall|i: int, j: int|
                    0 <= i < front.len() && 0 <= j < front.len() && i != j implies front[i].device_id
                    != front[j].device_id by {
                    assert(front[i] == devices[i] && front[j] == devices[j]);
                }
            }
            assert forall|i: int, j: int|
                0 <= i < pruned(devices, now).len() && 0 <= j < pruned(devices, now).len() && i
                    != j implies pruned(devices, now)[i].device_id != pruned(
                devices,
                now,
            )[j].device_id by {
                let low = if i < j {
                    i
                } else {
                    j
                };
                let high = if i < j {
                    j
                } else {
                    i
                };
                if high == kept.len() {
                    let d = kept[low];
                    assert(front.contains(d));
                    let k = choose|k: int| 0 <= k < front.len() && front[k] == d;
                    assert(devices[k] == d);
                    assert(devices[devices.len() - 1] == last);
                }
            }
        }
    }
}

/// Refreshing or adding a device keeps distinct ids distinct, and puts no
/// other id on the list.
pub proof fn lemma_upserted(devices: Seq<DeviceView>, id: Seq<char>, addr: SocketAddress, now: u64)
    ensures
        upserted(devices, id, addr, now).contains(
            DeviceView { device_id: id, addr, last_seen: now },
        ),
        distinct_ids(devices) ==> distinct_ids(upserted(devices, id, addr, now)),
        forall|other: Seq<char>|
            other != id ==> (knows(upserted(devices, id, addr, now), other) <==> knows(
                devices,
                other,
            )),
        forall|i: int|
            0 <= i < devices.len() && (#[trigger] devices[i]).device_id != id ==> upserted(
                devices,
                id,
                addr,
                now,
            ).contains(devices[i]),
{
    let entry = DeviceView { device_id: id, addr, last_seen: now };
    let after = upserted(devices, id, addr, now);
    if exists|i: int| first_entry(devices, id, i) {
        let at = choose|i: int| first_entry(devices, id, i);
        assert(after == devices.update(at, entry));
        assert(after[at] == entry);
        assert forall|other: Seq<char>| other != id implies (knows(after, other) <==> knows(
            devices,
            other,
        )) by {
            if knows(after, other) {
                let k = choose|k: int| 0 <= k < after.len() && after[k].device_id == other;
                assert(devices[k].device_id == other);
            }
            if knows(devices, other) {
                let k = choose|k: int| 0 <= k < devices.len() && devices[k].device_id == other;
                assert(after[k].device_id == other);
            }
        }
        assert forall|i: int|
            0 <= i < devices.len() && (#[trigger] devices[i]).device_id != id implies after.contains(
            devices[i],
        ) by {
            assert(after[i] == devices[i]);
        }
    } else {
        assert(after == devices.push(entry));
        assert(after[devices.len() as int] == entry);
        assert forall|i: int| 0 <= i < devices.len() implies devices[i].device_id != id by {
            if devices[i].device_id == id {
                lemma_has_first_entry(devices, id, i);
            }
        }
        assert forall|other: Seq<char>| other != id implies (knows(after, other) <==> knows(
            devices,
            other,
        )) by {
            if knows(after, other) {
                let k = choose|k: int| 0 <= k < after.len() && after[k].device_id == other;
                assert(devices[k].device_id == other);
            }
            if knows(devices, other) {
                let k = choose|k: int| 0 <= k < devices.len() && devices[k].device_id == other;
                assert(after[k].device_id == other);
            }
        }
        assert forall|i: int|
            0 <= i < devices.len() && (#[trigger] devices[i]).device_id != id implies after.contains(
            devices[i],
        ) by {
            assert(after[i] == devices[i]);
        }
    }
}

/// A list with an entry for `id` has a first one.
pub proof fn lemma_has_first_entry(devices: Seq<DeviceView>, id: Seq<char>, i: int)
    requires
        0 <= i < devices.len(),
        devices[i].device_id == id,
    ensures
        exists|k: int| first_entry(devices, id, k),
    decreases i,
{
    if exists|j: int| 0 <= j < i && devices[j].device_id == id {
        let j = choose|j: int| 0 <= j < i && devices[j].device_id == id;
        lemma_has_first_entry(devices, id, j);
    } else {
        assert(first_entry(devices, id, i));
    }
}

/// A device never lists itself: the datagram that it sends out as its own
/// announce changes nothing when it comes back, and no datagram at all puts
/// the device's own id on its list.
pub proof fn lemma_own_announce_is_ignored(
    devices: Seq<DeviceView>,
    own_id: Seq<char>,
    datagram: Seq<u8>,
    addr: SocketAddress,
    now: u64,
)
    ensures
        heard(devices, own_id, encode_utf8(announce_text(own_id)), addr, now) == devices,
        !knows(devices, own_id) ==> !knows(heard(devices, own_id, datagram, addr, now), own_id),
{
    let text = announce_text(own_id);
    encode_utf8_valid_utf8(text);
    encode_utf8_decode_utf8(text);
    assert(text_of(encode_utf8(text)) == text);
    assert(text.subrange(0, announce_prefix().len() as int) =~= announce_prefix());
    assert(text.skip(announce_prefix().len() as int) =~= own_id);
    assert(announced_id(encode_utf8(text)) == Some(own_id));
    match announced_id(datagram) {
        Some(id) => {
            if id != own_id && !knows(devices, own_id) {
                let mid = upserted(devices, id, addr, now);
                lemma_upserted(devices, id, addr, now);
                lemma_pruned(mid, now);
                if knows(pruned(mid, now), own_id) {
                    let k = choose|k: int|
                        0 <= k < pruned(mid, now).len() && pruned(mid, now)[k].device_id == own_id;
                    assert(knows(mid, pruned(mid, now)[k].device_id));
                }
            }
        },
        None => {},
    }
}

/// The registry holds live devices only, once an announce of another device
/// `id` has been taken in at `now`: every entry was heard less than thirty
/// seconds before, so a device last heard thirty-one seconds before is gone,
/// while every other device heard less than thirty seconds before, such as
/// one heard twenty-nine seconds before, is still there, and so is the
/// announcer, as heard at `now`. Distinct ids stay distinct.
pub proof fn lemma_heard_keeps_the_live(
    devices: Seq<DeviceView>,
    own_id: Seq<char>,
    datagram: Seq<u8>,
    addr: SocketAddress,
    now: u64,
)
    requires
        announced_id(datagram) is Some,
        announced_id(datagram) != Some(own_id),
    ensures
        forall|i: int|
            0 <= i < heard(devices, own_id, datagram, addr, now).len() ==> is_live(
                (#[trigger] heard(devices, own_id, datagram, addr, now)[i]).last_seen,
                now,
            ),
        forall|i: int|
            0 <= i < devices.len() && is_live((#[trigger] devices[i]).last_seen, now)
                && Some(devices[i].device_id) != announced_id(datagram) ==> heard(
                devices,
                own_id,
                datagram,
                addr,
                now,
            ).contains(devices[i]),
        heard(devices, own_id, datagram, addr, now).contains(
            DeviceView { device_id: announced_id(datagram)->0, addr, last_seen: now },
        ),
        distinct_ids(devices) ==> distinct_ids(heard(devices, own_id, datagram, addr, now)),
{
    let id = announced_id(datagram)->0;
    let mid = upserted(devices, id, addr, now);
    let after = pruned(mid, now);
    assert(heard(devices, own_id, datagram, addr, now) == after);
    lemma_upserted(devices, id, addr, now);
    lemma_pruned(mid, now);
    let entry = DeviceView { device_id: id, addr, last_seen: now };
    assert(mid.contains(entry));
    let at = choose|k: int| 0 <= k < mid.len() && mid[k] == entry;
    assert(is_live(mid[at].last_seen, now));
    assert forall|i: int|
        0 <= i < devices.len() && is_live((#[trigger] devices[i]).last_seen, now) && Some(
            devices[i].device_id,
        ) != announced_id(datagram) implies after.contains(devices[i]) by {
        assert(mid.contains(devices[i]));
        let k = choose|k: int| 0 <= k < mid.len() && mid[k] == devices[i];
        assert(is_live(mid[k].last_seen, now));
    }
}

/// Refreshes or adds the entry of `id` in `devices`.
fn upsert(devices: &mut Vec<DiscoveredDevice>, id: String, addr: SocketAddress, now: u64)
    ensures
        device_views(final(devices)@) == upserted(device_views(old(devices)@), id@, addr, now),
{
    let ghost before = device_views(devices@);
    let mut i: usize = 0;
    while i < devices.len()
        invariant
            i <= devices.len(),
            device_views(devices@) == before,
            before == device_views(old(devices)@),
            forall|j: int| 0 <= j < i ==> before[j].device_id != id@,
        decreases devices.len() - i,
    {
        if devices[i].device_id == id {
            assert(first_entry(before, id@, i as int));
            let ghost chosen = choose|k: int| first_entry(before, id@, k);
            assert(first_entry(before, id@, chosen));
            assert(chosen == i);
            devices.set(i, DiscoveredDevice { device_id: id, addr, last_seen: now });
            assert(device_views(devices@) =~= before.update(
                i as int,
                DeviceView { device_id: id@, addr, last_seen: now },
            ));
            return ;
        }
        i += 1;
    }
    assert forall|k: int| !first_entry(before, id@, k) by {}
    devices.push(DiscoveredDevice { device_id: id, addr, last_seen: now });
    assert(device_views(devices@) =~= before.push(
        DeviceView { device_id: id@, addr, last_seen: now },
    ));
}

/// Copies the devices that are still live at `now`, in their order.
fn live_devices(devices: &Vec<DiscoveredDevice>, now: u64) -> (kept: Vec<DiscoveredDevice>)
    ensures
        device_views(kept@) == pruned(device_views(devices@), now),
{
    let ghost all = device_views(devices@);
    let ghost live = |d: DeviceView| is_live(d.last_seen, now);
    let mut kept: Vec<DiscoveredDevice> = Vec::new();
    let mut i: usize = 0;
    proof {
        reveal(Seq::filter);
        assert(all.subrange(0, 0).filter(live) =~= Seq::<DeviceView>::empty());
        assert(device_views(kept@) =~= Seq::<DeviceView>::empty());
    }
    while i < devices.len()
        invariant
            i <= devices.len(),
            all == device_views(devices@),
            live == (|d: DeviceView| is_live(d.last_seen, now)),
            device_views(kept@) == all.subrange(0, i as int).filter(live),
        decreases devices.len() - i,
    {
        let ghost so_far = device_views(kept@);
        proof {
            reveal(Seq::filter);
            assert(all.subrange(0, i + 1).drop_last() =~= all.subrange(0, i as int));
            assert(all.subrange(0, i + 1).last() == devices@[i as int]@);
        }
        if now.saturating_sub(devices[i].last_seen) < DEVICE_TTL_SECS {
            kept.push(devices[i].clone());
            assert(device_views(kept@) =~= so_far.push(devices@[i as int]@));
        }
        i += 1;
    }
    assert(all.subrange(0, i as int) =~= all);
    kept
}

/// One round of the announcer.
#[derive(Debug)]
pub struct Announce {
    /// The announce of this device.
    pub datagram: Vec<u8>,
    /// Where to send it.
    pub target: SocketAddress,
    /// Seconds to rest before the next round.
    pub pause_secs: u64,
}

/// What the listener's socket gave in one round.
#[derive(Debug)]
pub enum Received {
    /// A datagram, and the address it came from.
    Datagram { bytes: Vec<u8>, from: SocketAddress },
    /// Nothing came within [`LISTEN_TIMEOUT_SECS`].
    TimedOut,
    /// The socket reported an error.
    Failed,
}

/// The discovery component of one device: its identity, the peers it has
/// heard, and whether its workers should be running.
pub struct DeviceDiscovery {
    device_id: String,
    discovered_devices: Vec<DiscoveredDevice>,
    is_running: bool,
}

impl DeviceDiscovery {
    /// No device is listed twice, and the device itself is not listed.
    #[verifier::type_invariant]
    spec fn well_formed(&self) -> bool {
        &&& distinct_ids(device_views(self.discovered_devices@))
        &&& !knows(device_views(self.discovered_devices@), self.device_id@)
    }

    /// The identity that this device announces.
    pub closed spec fn own_id(&self) -> Seq<char> {
        self.device_id@
    }

    /// The registry, in the order in which the devices were first heard.
    pub closed spec fn devices(&self) -> Seq<DeviceView> {
        device_views(self.discovered_devices@)
    }

    /// Whether the component has been started and not stopped since.
    pub closed spec fn running(&self) -> bool {
        self.is_running
    }

    /// A stopped component with an empty registry.
    pub fn new(device_id: String) -> (discovery: Self)
        ensures
            discovery.own_id() == device_id@,
            discovery.devices() == Seq::<DeviceView>::empty(),
            !discovery.running(),
    {
        let discovery = DeviceDiscovery {
            device_id,
            discovered_devices: Vec::new(),
            is_running: false,
        };
        assert(discovery.devices() =~= Seq::<DeviceView>::empty());
        discovery
    }

    /// Marks the component as running. Returns whether it was stopped before,
    /// that is whether the announcer and the listener have to be set going;
    /// starting a running component changes nothing.
    pub fn start(&mut self) -> (launch: bool)
        ensures
            final(self).running(),
            launch == !old(self).running(),
            final(self).own_id() == old(self).own_id(),
            final(self).devices() == old(self).devices(),
    {
        proof {
            use_type_invariant(&*self);
        }
        let launch = !self.is_running;
        self.is_running = true;
        launch
    }

    /// Marks the component as stopped; its workers end when they next look.
    /// The registry stays as it is.
    pub fn stop(&mut self)
        ensures
            !final(self).running(),
            final(self).own_id() == old(self).own_id(),
            final(self).devices() == old(self).devices(),
    {
        proof {
            use_type_invariant(&*self);
        }
        self.is_running = false;
    }

    /// Whether the component is running.
    pub fn is_running(&self) -> (running: bool)
        ensures
            running == self.running(),
    {
        self.is_running
    }

    /// A copy of the registry. No device is listed twice, and the device
    /// itself is not listed.
    pub fn get_discovered_devices(&self) -> (snapshot: Vec<DiscoveredDevice>)
        ensures
            device_views(snapshot@) == self.devices(),
            distinct_ids(self.devices()),
            !knows(self.devices(), self.own_id()),
    {
        proof {
            use_type_invariant(self);
        }
        let mut snapshot: Vec<DiscoveredDevice> = Vec::new();
        let mut i: usize = 0;
        while i < self.discovered_devices.len()
            invariant
                i <= self.discovered_devices.len(),
                device_views(snapshot@) =~= device_views(self.discovered_devices@).subrange(
                    0,
                    i as int,
                ),
            decreases self.discovered_devices.len() - i,
        {
            let ghost so_far = device_views(snapshot@);
            snapshot.push(self.discovered_devices[i].clone());
            assert(device_views(snapshot@) =~= so_far.push(self.discovered_devices@[i as int]@));
            i += 1;
        }
        assert(device_views(snapshot@) =~= device_views(self.discovered_devices@));
        snapshot
    }

    /// One round of the announcer: what to send now, where to, and how long
    /// to rest before the next round; or `None` once the component is stopped
    /// and the announcer has to end.
    pub fn broadcast_presence(&self) -> (round: Option<Announce>)
        ensures
            match round {
                Some(announce) => {
                    &&& self.running()
                    &&& announce.datagram@ == encode_utf8(announce_text(self.own_id()))
                    &&& announce.target == discovery_target()
                    &&& announce.pause_secs == ANNOUNCE_INTERVAL_SECS
                },
                None => !self.running(),
            },
    {
        if self.is_running {
            Some(
                Announce {
                    datagram: announcement(self.device_id.as_str()),
                    target: discovery_target(),
                    pause_secs: ANNOUNCE_INTERVAL_SECS,
                },
            )
        } else {
            None
        }
    }

    /// Takes in a datagram that came from `addr` at `now` (Unix seconds). An
    /// announce of another device refreshes or adds that device, and then every
    /// device that has been silent for thirty seconds is dropped. Any other
    /// datagram, and the device's own announce, leave the registry as it is.
    pub fn record(&mut self, datagram: &[u8], addr: SocketAddress, now: u64)
        ensures
            final(self).devices() == heard(
                old(self).devices(),
                old(self).own_id(),
                datagram@,
                addr,
                now,
            ),
            final(self).own_id() == old(self).own_id(),
            final(self).running() == old(self).running(),
    {
        proof {
            use_type_invariant(&*self);
            lemma_own_announce_is_ignored(self.devices(), self.own_id(), datagram@, addr, now);
        }
        match parse_announce(datagram) {
            Some(id) => {
                if id != self.device_id {
                    proof {
                        lemma_heard_keeps_the_live(
                            self.devices(),
                            self.own_id(),
                            datagram@,
                            addr,
                            now,
                        );
                    }
                    let mut devices: Vec<DiscoveredDevice> = Vec::new();
                    std::mem::swap(&mut devices, &mut self.discovered_devices);
                    upsert(&mut devices, id, addr, now);
                    self.discovered_devices = live_devices(&devices, now);
                }
            },
            None => {},
        }
    }

    /// One round of the listener, for what the socket gave. A datagram is
    /// recorded at the time that the clock shows; a round without a datagram
    /// and a failed one change nothing. Returns whether the listener goes on,
    /// that is whether the component is still running.
    pub fn listen_for_devices(&mut self, received: Received) -> (go_on: bool)
        ensures
            match received {
                Received::Datagram { bytes, from } => exists|now: u64|
                    final(self).devices() == #[trigger] heard(
                        old(self).devices(),
                        old(self).own_id(),
                        bytes@,
                        from,
                        now,
                    ),
                _ => final(self).devices() == old(self).devices(),
            },
            final(self).own_id() == old(self).own_id(),
            final(self).running() == old(self).running(),
            go_on == old(self).running(),
    {
        match received {
            Received::Datagram { bytes, from } => {
                let now = unix_millis() / 1000;
                self.record(bytes.as_slice(), from, now);
            },
            _ => {},
        }
        self.is_running
    }
}

} // verus!
