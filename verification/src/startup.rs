//! What the server makes of its environment when it starts.
use crate::text;
use crate::text::{fields, is_first_index, parse_unsigned, trimmed};
use vstd::prelude::*;
use vstd::string::*;

verus! {

/// A network card that serves RDMA clients.
pub struct RdmaDeviceConfig {
    pub device_name: String,
    pub port_num: u8,
    pub gid_index: u8,
    pub tcp_listen: String,
}

/// A card as a list names it: the device, a colon, the address to listen on.
pub open spec fn names_device(item: Seq<char>, d: RdmaDeviceConfig) -> bool {
    exists|i: int| #[trigger]
        is_first_index(item, ':', i) && d.device_name@ == item.take(i) && d.tcp_listen@
            == item.skip(i + 1) && d.port_num == 1 && d.gid_index == 3
}

/// There is no colon in the text.
pub open spec fn lacks_colon(item: Seq<char>) -> bool {
    forall|k: int| 0 <= k < item.len() ==> #[trigger] item[k] != ':'
}

/// The items of a list: what stands between the commas, without white space at the ends, empty
/// ones left out.
pub open spec fn list_items(parts: Seq<Seq<char>>) -> Seq<Seq<char>>
    decreases parts.len(),
{
    if parts.len() == 0 {
        Seq::empty()
    } else {
        let front = list_items(parts.drop_last());
        let item = trimmed(parts.last());
        if item.len() == 0 {
            front
        } else {
            front.push(item)
        }
    }
}

/// The complaint about an item.
pub open spec fn bad_item(item: Seq<char>) -> Seq<char> {
    "bad item '"@ + item + "', expect dev:host:port"@
}

/// The list of network cards; the first item without a colon is an error.
pub fn parse_devices(list: &str) -> (r: Result<Vec<RdmaDeviceConfig>, String>)
    ensures
        ({
            let items = list_items(fields(list@, ','));
            match r {
                Ok(devices) => devices@.len() == items.len() && forall|i: int|
                    0 <= i < items.len() ==> names_device(#[trigger] items[i], devices@[i]),
                Err(e) => exists|i: int|
                    0 <= i < items.len() && lacks_colon(#[trigger] items[i]) && (forall|k: int|
                        0 <= k < i ==> !lacks_colon(#[trigger] items[k])) && e@ == bad_item(
                        items[i],
                    ),
            }
        }),
{
    let parts = text::split(list, ',');
    let ghost all = fields(list@, ',');
    let ghost items = list_items(all);
    let mut out: Vec<RdmaDeviceConfig> = Vec::new();
    let mut i: usize = 0;
    proof {
        assert(all.take(0) =~= Seq::<Seq<char>>::empty());
    }
    while i < parts.len()
        invariant
            i <= parts.len(),
            text::views(parts@) == all,
            all == fields(list@, ','),
            items == list_items(all),
            out@.len() == list_items(all.take(i as int)).len(),
            forall|k: int|
                0 <= k < out@.len() ==> names_device(
                    #[trigger] list_items(all.take(i as int))[k],
                    out@[k],
                ),
        decreases parts.len() - i,
    {
        let ghost front = list_items(all.take(i as int));
        let ghost before = out@;
        let item = text::trim(parts[i].as_str());
        let len: usize = item.as_str().unicode_len();
        proof {
            assert(all[i as int] == parts@[i as int]@);
            assert(all.take(i + 1).drop_last() =~= all.take(i as int));
            assert(all.take(i + 1).last() == all[i as int]);
        }
        if len > 0 {
            match text::find_char(item.as_str(), ':') {
                None => {
                    let mut e = "bad item '".to_owned();
                    e.append(item.as_str());
                    e.append("', expect dev:host:port");
                    proof {
                        let at = front.len() as int;
                        lemma_items_prefix(all, i + 1);
                        let known = list_items(all.take(i + 1));
                        assert(known == front.push(item@));
                        assert(items[at] == known[at]);
                        assert(lacks_colon(items[at]));
                        assert forall|k: int| 0 <= k < at implies !lacks_colon(
                            #[trigger] items[k],
                        ) by {
                            assert(items[k] == known[k]);
                            assert(known[k] == front[k]);
                            assert(names_device(front[k], out@[k]));
                            let c = choose|c: int| #[trigger]
                                is_first_index(front[k], ':', c) && out@[k].device_name@
                                    == front[k].take(c) && out@[k].tcp_listen@ == front[k].skip(
                                    c + 1,
                                );
                            assert(front[k][c] == ':');
                        }
                        assert(e@ == bad_item(items[at]));
                    }
                    return Err(e);
                },
                Some(at) => {
                    let device_name = item.as_str().substring_char(0, at).to_owned();
                    let tcp_listen = item.as_str().substring_char(at + 1, len).to_owned();
                    proof {
                        assert(device_name@ =~= item@.take(at as int));
                        assert(tcp_listen@ =~= item@.skip(at + 1));
                    }
                    out.push(RdmaDeviceConfig { device_name, port_num: 1, gid_index: 3, tcp_listen });
                    proof {
                        let known = list_items(all.take(i + 1));
                        assert forall|k: int| 0 <= k < out@.len() implies names_device(
                            #[trigger] known[k],
                            out@[k],
                        ) by {
                            if k < before.len() {
                                assert(names_device(front[k], before[k]));
                            }
                        }
                    }
                },
            }
        }
        i = i + 1;
    }
    proof {
        assert(all.take(i as int) =~= all);
    }
    Ok(out)
}

proof fn lemma_items_prefix(all: Seq<Seq<char>>, n: int)
    requires
        0 <= n <= all.len(),
    ensures
        list_items(all.take(n)).len() <= list_items(all).len(),
        forall|k: int|
            0 <= k < list_items(all.take(n)).len() ==> #[trigger] list_items(all)[k] == list_items(
                all.take(n),
            )[k],
    decreases all.len() - n,
{
    if n == all.len() {
        assert(all.take(n) =~= all);
    } else {
        assert(all.take(n + 1).drop_last() =~= all.take(n));
        lemma_items_prefix(all, n + 1);
        let shorter = list_items(all.take(n));
        let longer = list_items(all.take(n + 1));
        assert forall|k: int| 0 <= k < shorter.len() implies #[trigger] list_items(all)[k]
            == shorter[k] by {
            assert(longer[k] == shorter[k]);
            assert(list_items(all)[k] == longer[k]);
        }
    }
}

/// The network cards that the server uses: those that the list names, or the given ones where
/// it names none or cannot be read. A list that cannot be read is also complained about.
pub fn choose_devices(list: Option<&str>, otherwise: Vec<RdmaDeviceConfig>) -> (r: (
    Vec<RdmaDeviceConfig>,
    Option<String>,
))
    ensures
        match list {
            None => r.0 == otherwise && r.1 is None,
            Some(list) => {
                let items = list_items(fields(list@, ','));
                match r.1 {
                    Some(e) => r.0 == otherwise && exists|i: int|
                        0 <= i < items.len() && lacks_colon(#[trigger] items[i]) && (forall|k: int|
                            0 <= k < i ==> !lacks_colon(#[trigger] items[k])) && e@ == bad_item(
                            items[i],
                        ),
                    None => if items.len() == 0 {
                        r.0 == otherwise
                    } else {
                        r.0@.len() == items.len() && forall|i: int|
                            0 <= i < items.len() ==> names_device(#[trigger] items[i], r.0@[i])
                    },
                }
            },
        },
{
    match list {
        None => (otherwise, None),
        Some(list) => match parse_devices(list) {
            Err(e) => (otherwise, Some(e)),
            Ok(devices) => if devices.len() == 0 {
                (otherwise, None)
            } else {
                (devices, None)
            },
        },
    }
}

/// The size of the RDMA slab in MiB: what the environment says, where that is a number.
pub fn slab_size_mb(value: Option<&str>, otherwise: usize) -> (r: usize)
    ensures
        r == (match value {
            None => otherwise as nat,
            Some(v) => match parse_unsigned(v@, usize::MAX as nat) {
                Some(n) => n,
                None => otherwise as nat,
            },
        }),
{
    match value {
        None => otherwise,
        Some(v) => match text::parse_usize(v) {
            Some(n) => n,
            None => otherwise,
        },
    }
}

/// The GPU that is selected once the driver is ready; a negative number selects none.
pub fn device_to_select(driver_ready: bool, device: i32) -> (r: Option<i32>)
    ensures
        r == (if driver_ready && device >= 0 {
            Some(device)
        } else {
            None
        }),
{
    if driver_ready && device >= 0 {
        Some(device)
    } else {
        None
    }
}

} // verus!
