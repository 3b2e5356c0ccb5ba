//! Which device a file is on, and how a batch is dealt out to the devices and put together again.
use crate::config::Config;
use crate::error::KVError;
use crate::paths::path_under;
use crate::text;
use crate::text::byte_len;
use std::path::Path;
use vstd::prelude::*;
use vstd::string::*;

verus! {

/// `Path::starts_with`: whether the components of `prefix` are the first components of `path`,
/// whole components compared, with the components that `Path::components` gives where slashes
/// separate them.
#[verifier::external_body]
fn path_starts_with(path: &str, prefix: &str) -> (r: bool)
    ensures
        r == path_under(path@, prefix@),
{
    Path::new(path).starts_with(prefix)
}

/// The directories that belong to the devices.
pub struct DeviceIndex {
    prefixes: Vec<(String, usize)>,
    count: usize,
}

/// A list of directories, each with its device.
pub open spec fn prefix_views(s: Seq<(String, usize)>) -> Seq<(Seq<char>, int)> {
    s.map_values(|p: (String, usize)| (p.0@, p.1 as int))
}

/// The device of the first directory of the list that a path lies under.
pub open spec fn first_match(s: Seq<(Seq<char>, int)>, path: Seq<char>) -> Option<int>
    decreases s.len(),
{
    if s.len() == 0 {
        None
    } else if path_under(path, s[0].0) {
        Some(s[0].1)
    } else {
        first_match(s.skip(1), path)
    }
}

/// The list with a directory put behind all that are at least as long.
pub open spec fn with_prefix(s: Seq<(Seq<char>, int)>, p: (Seq<char>, int)) -> Seq<(Seq<char>, int)>
    decreases s.len(),
{
    if s.len() == 0 || byte_len(s.last().0) >= byte_len(p.0) {
        s.push(p)
    } else {
        with_prefix(s.drop_last(), p).push(s.last())
    }
}

/// Longer directories come first.
pub open spec fn longest_first(s: Seq<(Seq<char>, int)>) -> bool {
    forall|i: int, j: int|
        0 <= i <= j < s.len() ==> byte_len((#[trigger] s[i]).0) >= byte_len((#[trigger] s[j]).0)
}

proof fn lemma_with_prefix_at(s: Seq<(Seq<char>, int)>, p: (Seq<char>, int), i: int)
    requires
        0 <= i <= s.len(),
        i > 0 ==> byte_len(s[i - 1].0) >= byte_len(p.0),
        forall|k: int| i <= k < s.len() ==> byte_len((#[trigger] s[k]).0) < byte_len(p.0),
    ensures
        with_prefix(s, p) == s.insert(i, p),
    decreases s.len(),
{
    if i == s.len() {
        assert(s.insert(i, p) =~= s.push(p));
    } else {
        assert(byte_len(s[s.len() - 1].0) < byte_len(p.0));
        lemma_with_prefix_at(s.drop_last(), p, i);
        assert(s.insert(i, p) =~= s.drop_last().insert(i, p).push(s.last()));
    }
}

impl DeviceIndex {
    /// The directories with their devices, longer ones first.
    pub closed spec fn prefixes(&self) -> Seq<(Seq<char>, int)> {
        prefix_views(self.prefixes@)
    }

    /// The number of devices.
    pub closed spec fn count(&self) -> nat {
        self.count as nat
    }

    /// Longer directories come first, and every device exists.
    pub open spec fn wf(&self) -> bool {
        &&& longest_first(self.prefixes())
        &&& forall|i: int|
            0 <= i < self.prefixes().len() ==> 0 <= (#[trigger] self.prefixes()[i]).1
                < self.count()
        &&& self.prefixes().len() == self.count()
    }

    pub fn new() -> (r: DeviceIndex)
        ensures
            r.wf(),
            r.count() == 0,
            r.prefixes().len() == 0,
    {
        DeviceIndex { prefixes: Vec::new(), count: 0 }
    }

    /// Adds a device with its directory, and returns its number.
    pub fn register_device(&mut self, root: String) -> (idx: usize)
        requires
            old(self).wf(),
            old(self).count() < usize::MAX,
        ensures
            final(self).wf(),
            idx == old(self).count(),
            final(self).count() == old(self).count() + 1,
            final(self).prefixes() == with_prefix(old(self).prefixes(), (root@, idx as int)),
    {
        let idx: usize = self.count;
        let n: usize = text::byte_length(root.as_str());
        let ghost before = self.prefixes();
        let ghost p = (root@, idx as int);
        let mut i: usize = self.prefixes.len();
        while i > 0 && text::byte_length(self.prefixes[i - 1].0.as_str()) < n
            invariant
                i <= self.prefixes.len(),
                self.prefixes() == before,
                before.len() == self.prefixes@.len(),
                self.count == idx,
                n == byte_len(p.0),
                forall|k: int|
                    i <= k < before.len() ==> byte_len((#[trigger] before[k]).0) < byte_len(p.0),
            decreases i,
        {
            i = i - 1;
        }
        proof {
            if i > 0 {
                assert(before[i - 1].0 == self.prefixes@[i - 1].0@);
            }
        }
        self.prefixes.insert(i, (root, idx));
        self.count = idx + 1;
        proof {
            assert(self.prefixes() =~= before.insert(i as int, p));
            lemma_with_prefix_at(before, p, i as int);
            let after = self.prefixes();
            assert forall|a: int, b: int| 0 <= a <= b < after.len() implies byte_len(
                (#[trigger] after[a]).0,
            ) >= byte_len((#[trigger] after[b]).0) by {
                let x = if a < i {
                    a
                } else {
                    a - 1
                };
                let y = if b < i {
                    b
                } else {
                    b - 1
                };
                if a == i && b > i {
                    assert(byte_len(before[y].0) < byte_len(p.0));
                } else if b == i && a < i {
                    assert(byte_len(before[a].0) >= byte_len(before[i - 1].0));
                } else if a != i && b != i {
                    assert(byte_len(before[x].0) >= byte_len(before[y].0));
                }
            }
            assert forall|k: int| 0 <= k < after.len() implies 0 <= (#[trigger] after[k]).1
                < self.count() by {
                if k < i {
                    assert(after[k] == before[k]);
                } else if k > i {
                    assert(after[k] == before[k - 1]);
                }
            }
        }
        idx
    }

    /// The device that a file is on: that of the longest directory that the path lies under, or
    /// the first device where there is none.
    pub fn device_of(&self, path: &str) -> (r: usize)
        requires
            self.wf(),
        ensures
            r == (match first_match(self.prefixes(), path@) {
                Some(d) => d,
                None => 0,
            }),
            self.count() > 0 ==> r < self.count(),
    {
        let mut i: usize = 0;
        let ghost all = self.prefixes();
        proof {
            assert(all.skip(0) =~= all);
        }
        while i < self.prefixes.len()
            invariant
                i <= self.prefixes.len(),
                self.wf(),
                all == self.prefixes(),
                all.len() == self.prefixes@.len(),
                first_match(all, path@) == first_match(all.skip(i as int), path@),
            decreases self.prefixes.len() - i,
        {
            proof {
                assert(all[i as int] == (
                    self.prefixes@[i as int].0@,
                    self.prefixes@[i as int].1 as int,
                ));
                assert(all.skip(i as int)[0] == all[i as int]);
                assert(all.skip(i as int).skip(1) =~= all.skip(i + 1));
            }
            if path_starts_with(path, self.prefixes[i].0.as_str()) {
                return self.prefixes[i].1;
            }
            i = i + 1;
        }
        0
    }

    /// The device that a single request goes to. Without devices there is none.
    pub fn route_device(&self, path: &str) -> (r: Result<usize, KVError>)
        requires
            self.wf(),
        ensures
            if self.count() == 0 {
                r is Err && r->Err_0 is Internal && r->Err_0->Internal_0@
                    == "no devices registered in TierBExecutor"@
            } else {
                r is Ok && r->Ok_0 < self.count() && r->Ok_0 == (match first_match(
                    self.prefixes(),
                    path@,
                ) {
                    Some(d) => d,
                    None => 0,
                })
            },
    {
        if self.count == 0 {
            return Err(
                KVError::Internal("no devices registered in TierBExecutor".to_owned()),
            );
        }
        Ok(self.device_of(path))
    }
}

/// A file goes to the device of the longest directory that it lies under.
pub proof fn longest_directory_wins(s: Seq<(Seq<char>, int)>, path: Seq<char>)
    requires
        longest_first(s),
    ensures
        match first_match(s, path) {
            Some(d) => exists|i: int|
                0 <= i < s.len() && (#[trigger] s[i]).1 == d && path_under(path, s[i].0)
                    && forall|j: int|
                    0 <= j < s.len() && path_under(path, (#[trigger] s[j]).0) ==> byte_len(s[j].0)
                        <= byte_len(s[i].0),
            None => forall|j: int| 0 <= j < s.len() ==> !path_under(path, (#[trigger] s[j]).0),
        },
    decreases s.len(),
{
    if s.len() > 0 {
        let t = s.skip(1);
        if path_under(path, s[0].0) {
            assert(s[0].1 == first_match(s, path)->0);
        } else {
            assert forall|i: int, j: int| 0 <= i <= j < t.len() implies byte_len(
                (#[trigger] t[i]).0,
            ) >= byte_len((#[trigger] t[j]).0) by {
                assert(byte_len(s[i + 1].0) >= byte_len(s[j + 1].0));
            }
            longest_directory_wins(t, path);
            match first_match(t, path) {
                Some(d) => {
                    let i = choose|i: int|
                        0 <= i < t.len() && (#[trigger] t[i]).1 == d && path_under(path, t[i].0)
                            && forall|j: int|
                            0 <= j < t.len() && path_under(path, (#[trigger] t[j]).0) ==> byte_len(
                                t[j].0,
                            ) <= byte_len(t[i].0);
                    assert(s[i + 1] == t[i]);
                    assert forall|j: int|
                        0 <= j < s.len() && path_under(path, (#[trigger] s[j]).0) implies byte_len(
                        s[j].0,
                    ) <= byte_len(s[i + 1].0) by {
                        assert(t[j - 1] == s[j]);
                    }
                },
                None => {
                    assert forall|j: int| 0 <= j < s.len() implies !path_under(
                        path,
                        (#[trigger] s[j]).0,
                    ) by {
                        if j > 0 {
                            assert(t[j - 1] == s[j]);
                        }
                    }
                },
            }
        }
    }
}

/// The requests of a batch that go to one device, by their positions.
pub struct DeviceGroup {
    pub device: usize,
    pub members: Vec<usize>,
}

/// The positions below `n` whose device is `d`, in order.
pub open spec fn positions(devices: Seq<usize>, d: usize, n: nat) -> Seq<usize>
    decreases n,
{
    if n == 0 {
        Seq::empty()
    } else if devices[n - 1] == d {
        positions(devices, d, (n - 1) as nat).push((n - 1) as usize)
    } else {
        positions(devices, d, (n - 1) as nat)
    }
}

/// The groups are in the order of their devices, and each lists exactly the positions of its
/// device among the first `n`.
pub open spec fn grouped(g: Seq<DeviceGroup>, devices: Seq<usize>, n: nat) -> bool {
    &&& forall|i: int, j: int|
        0 <= i < j < g.len() ==> (#[trigger] g[i]).device < (#[trigger] g[j]).device
    &&& forall|i: int|
        0 <= i < g.len() ==> (#[trigger] g[i]).members@ == positions(devices, g[i].device, n)
    &&& forall|k: int| #![trigger devices[k]]
        0 <= k < n ==> exists|i: int| 0 <= i < g.len() && (#[trigger] g[i]).device == devices[k]
}

/// Deals a batch out: for each device that occurs, the positions of its requests.
pub fn group_by_device(devices: &Vec<usize>) -> (r: Vec<DeviceGroup>)
    ensures
        grouped(r@, devices@, devices@.len()),
        forall|i: int| 0 <= i < r@.len() ==> (#[trigger] r@[i]).members@.len() > 0,
{
    let mut out: Vec<DeviceGroup> = Vec::new();
    let mut k: usize = 0;
    while k < devices.len()
        invariant
            k <= devices.len(),
            grouped(out@, devices@, k as nat),
            forall|i: int| 0 <= i < out@.len() ==> (#[trigger] out@[i]).members@.len() > 0,
        decreases devices.len() - k,
    {
        let d: usize = devices[k];
        let ghost before = out@;
        let mut i: usize = 0;
        while i < out.len() && out[i].device < d
            invariant
                i <= out.len(),
                out@ == before,
                forall|x: int| 0 <= x < i ==> (#[trigger] before[x]).device < d,
            decreases out.len() - i,
        {
            i = i + 1;
        }
        if i < out.len() && out[i].device == d {
            let mut slot = DeviceGroup { device: d, members: Vec::new() };
            out.set_and_swap(i, &mut slot);
            let mut members = slot.members;
            members.push(k);
            out.set(i, DeviceGroup { device: d, members });
            proof {
                assert(out@ =~= before.update(i as int, DeviceGroup { device: d, members }));
                lemma_group_extended(before, out@, devices@, k as nat, i as int);
            }
        } else {
            let mut members: Vec<usize> = Vec::new();
            members.push(k);
            proof {
                assert forall|x: int| 0 <= x < before.len() implies (#[trigger] before[x]).device
                    != d by {
                    if i <= x && i < before.len() {
                        assert(before[i as int].device > d);
                        if i < x {
                            assert(before[i as int].device < before[x].device);
                        }
                    }
                }
                assert forall|q: int| 0 <= q < k implies (#[trigger] devices@[q]) != d by {
                    let x = choose|x: int|
                        0 <= x < before.len() && (#[trigger] before[x]).device == devices@[q];
                    assert(before[x].device != d);
                }
                lemma_no_positions(devices@, d, k as nat);
            }
            out.insert(i, DeviceGroup { device: d, members });
            proof {
                assert(out@ =~= before.insert(i as int, DeviceGroup { device: d, members }));
                assert(members@ =~= positions(devices@, d, (k + 1) as nat));
                lemma_group_inserted(before, out@, devices@, k as nat, i as int);
            }
        }
        k = k + 1;
    }
    out
}

proof fn lemma_no_positions(devices: Seq<usize>, d: usize, n: nat)
    requires
        n <= devices.len(),
        forall|k: int| 0 <= k < n ==> (#[trigger] devices[k]) != d,
    ensures
        positions(devices, d, n).len() == 0,
    decreases n,
{
    if n > 0 {
        lemma_no_positions(devices, d, (n - 1) as nat);
    }
}

proof fn lemma_group_extended(
    before: Seq<DeviceGroup>,
    after: Seq<DeviceGroup>,
    devices: Seq<usize>,
    k: nat,
    i: int,
)
    requires
        grouped(before, devices, k),
        k < devices.len(),
        k <= usize::MAX,
        0 <= i < before.len(),
        before[i].device == devices[k as int],
        after.len() == before.len(),
        forall|x: int| 0 <= x < before.len() && x != i ==> (#[trigger] after[x]) == before[x],
        after[i].device == before[i].device,
        after[i].members@ == before[i].members@.push(k as usize),
    ensures
        grouped(after, devices, k + 1),
{
    assert forall|x: int| 0 <= x < after.len() implies (#[trigger] after[x]).members@ == positions(
        devices,
        after[x].device,
        k + 1,
    ) by {
        assert(before[x].members@ == positions(devices, before[x].device, k));
        if x != i {
            if x < i {
                assert(before[x].device < before[i].device);
            } else {
                assert(before[i].device < before[x].device);
            }
        }
    }
    assert forall|x: int, y: int| 0 <= x < y < after.len() implies (#[trigger] after[x]).device < (
    #[trigger] after[y]).device by {
        assert(before[x].device < before[y].device);
    }
    assert forall|q: int| #![trigger devices[q]] 0 <= q < k + 1 implies exists|x: int|
        0 <= x < after.len() && (#[trigger] after[x]).device == devices[q] by {
        if q < k {
            let x = choose|x: int|
                0 <= x < before.len() && (#[trigger] before[x]).device == devices[q];
            assert(after[x].device == devices[q]);
        } else {
            assert(after[i].device == devices[q]);
        }
    }
}

proof fn lemma_group_inserted(
    before: Seq<DeviceGroup>,
    after: Seq<DeviceGroup>,
    devices: Seq<usize>,
    k: nat,
    i: int,
)
    requires
        grouped(before, devices, k),
        k < devices.len(),
        0 <= i <= before.len(),
        after == before.insert(i, after[i]),
        after[i].device == devices[k as int],
        after[i].members@ == positions(devices, devices[k as int], k + 1),
        forall|x: int| 0 <= x < i ==> (#[trigger] before[x]).device < devices[k as int],
        forall|x: int| i <= x < before.len() ==> (#[trigger] before[x]).device > devices[k as int],
    ensures
        grouped(after, devices, k + 1),
{
    assert forall|x: int| 0 <= x < after.len() implies (#[trigger] after[x]).members@ == positions(
        devices,
        after[x].device,
        k + 1,
    ) by {
        if x < i {
            assert(after[x] == before[x]);
        } else if x > i {
            assert(after[x] == before[x - 1]);
        }
    }
    assert forall|x: int, y: int| 0 <= x < y < after.len() implies (#[trigger] after[x]).device < (
    #[trigger] after[y]).device by {
        let a = if x < i {
            x
        } else {
            x - 1
        };
        let b = if y < i {
            y
        } else {
            y - 1
        };
        if x != i {
            assert(after[x] == before[a]);
        }
        if y != i {
            assert(after[y] == before[b]);
        }
        if x != i && y != i {
            assert(before[a].device < before[b].device);
        }
    }
    assert forall|q: int| #![trigger devices[q]] 0 <= q < k + 1 implies exists|x: int|
        0 <= x < after.len() && (#[trigger] after[x]).device == devices[q] by {
        if q < k {
            let x = choose|x: int|
                0 <= x < before.len() && (#[trigger] before[x]).device == devices[q];
            if x < i {
                assert(after[x] == before[x]);
            } else {
                assert(after[x + 1] == before[x]);
            }
        } else {
            assert(after[i].device == devices[q]);
        }
    }
}

proof fn lemma_positions(devices: Seq<usize>, d: usize, n: nat)
    requires
        n <= devices.len(),
        devices.len() <= usize::MAX,
    ensures
        forall|j: int|
            0 <= j < positions(devices, d, n).len() ==> (#[trigger] positions(devices, d, n)[j]) < n
                && devices[positions(devices, d, n)[j] as int] == d,
        forall|k: int|
            0 <= k < n && (#[trigger] devices[k]) == d ==> positions(devices, d, n).contains(
                k as usize,
            ),
        forall|i: int, j: int|
            0 <= i < j < positions(devices, d, n).len() ==> (#[trigger] positions(devices, d, n)[i])
                < (#[trigger] positions(devices, d, n)[j]),
    decreases n,
{
    if n > 0 {
        lemma_positions(devices, d, (n - 1) as nat);
        let f = positions(devices, d, (n - 1) as nat);
        let p = positions(devices, d, n);
        assert forall|k: int| 0 <= k < n && (#[trigger] devices[k]) == d implies p.contains(
            k as usize,
        ) by {
            if k < n - 1 {
                assert(f.contains(k as usize));
                let j = choose|j: int| 0 <= j < f.len() && f[j] == k as usize;
                assert(p[j] == k as usize);
            } else {
                assert(p[p.len() - 1] == k as usize);
            }
        }
    }
}

/// Every request of a batch is in exactly one group, at one place.
pub proof fn every_request_is_dealt_out_once(g: Seq<DeviceGroup>, devices: Seq<usize>, k: int)
    requires
        grouped(g, devices, devices.len()),
        devices.len() <= usize::MAX,
        0 <= k < devices.len(),
    ensures
        exists|i: int, j: int| #[trigger] at(g, i, j, k),
        forall|i: int, j: int, a: int, b: int|
            #[trigger] at(g, i, j, k) && #[trigger] at(g, a, b, k) ==> i == a && j == b,
{
    let d = devices[k];
    let i = choose|i: int| 0 <= i < g.len() && (#[trigger] g[i]).device == d;
    lemma_positions(devices, d, devices.len());
    assert(g[i].members@ == positions(devices, d, devices.len()));
    assert(g[i].members@.contains(k as usize));
    let j = choose|j: int| 0 <= j < g[i].members@.len() && g[i].members@[j] == k as usize;
    assert(at(g, i, j, k));
    assert forall|i: int, j: int, a: int, b: int|
        #[trigger] at(g, i, j, k) && #[trigger] at(g, a, b, k) implies i == a && j == b by {
        lemma_positions(devices, g[i].device, devices.len());
        lemma_positions(devices, g[a].device, devices.len());
        assert(g[i].members@ == positions(devices, g[i].device, devices.len()));
        assert(g[a].members@ == positions(devices, g[a].device, devices.len()));
        assert(g[i].device == d && g[a].device == d);
        if i < a {
            assert(g[i].device < g[a].device);
        } else if a < i {
            assert(g[a].device < g[i].device);
        }
        if j < b {
            assert(g[i].members@[j] < g[i].members@[b]);
        } else if b < j {
            assert(g[i].members@[b] < g[i].members@[j]);
        }
    }
}

/// Entry `j` of group `i` is request `k`.
pub open spec fn at(g: Seq<DeviceGroup>, i: int, j: int, k: int) -> bool {
    0 <= i < g.len() && 0 <= j < g[i].members@.len() && g[i].members@[j] == k
}

/// Collects the answers of the devices to a batch, each at the position of its request.
pub struct Scatter<T> {
    slots: Vec<Option<Result<T, KVError>>>,
}

impl<T> Scatter<T> {
    /// The answer at each position, where there is one.
    pub closed spec fn slots(&self) -> Seq<Option<Result<T, KVError>>> {
        self.slots@
    }

    /// No answers yet to `n` requests.
    pub fn new(n: usize) -> (r: Scatter<T>)
        ensures
            r.slots() == Seq::new(n as nat, |i: int| None::<Result<T, KVError>>),
    {
        let mut slots: Vec<Option<Result<T, KVError>>> = Vec::new();
        let mut i: usize = 0;
        while i < n
            invariant
                i <= n,
                slots@ == Seq::new(i as nat, |k: int| None::<Result<T, KVError>>),
            decreases n - i,
        {
            slots.push(None);
            proof {
                assert(slots@ =~= Seq::new((i + 1) as nat, |k: int| None::<Result<T, KVError>>));
            }
            i = i + 1;
        }
        Scatter { slots }
    }

    /// Takes in the answers of one device: they go to the positions of its group, in order.
    pub fn fill(&mut self, members: &Vec<usize>, results: Vec<Result<T, KVError>>)
        requires
            forall|j: int|
                0 <= j < members@.len() ==> (#[trigger] members@[j]) < old(self).slots().len(),
        ensures
            final(self).slots() == filled(
                old(self).slots(),
                members@,
                results@,
                if results@.len() < members@.len() {
                    results@.len()
                } else {
                    members@.len()
                },
            ),
    {
        let ghost before = self.slots@;
        let ghost all = results@;
        let mut j: usize = 0;
        for r in it: results
            invariant
                it.seq() == all,
                j == (if it.index() < members@.len() {
                    it.index()
                } else {
                    members@.len() as int
                }),
                forall|x: int|
                    0 <= x < members@.len() ==> (#[trigger] members@[x]) < before.len(),
                self.slots@.len() == before.len(),
                self.slots@ == filled(before, members@, all, j as nat),
        {
            if j < members.len() {
                proof {
                    assert(members@[j as int] < before.len());
                }
                self.slots.set(members[j], Some(r));
                j = j + 1;
            }
        }
    }

    /// One device gave no answer: all of its requests fail.
    pub fn fail(&mut self, members: &Vec<usize>, message: &str)
        requires
            forall|j: int|
                0 <= j < members@.len() ==> (#[trigger] members@[j]) < old(self).slots().len(),
        ensures
            final(self).slots().len() == old(self).slots().len(),
            forall|k: int|
                0 <= k < old(self).slots().len() ==> {
                    if members@.contains(k as usize) {
                        (#[trigger] final(self).slots()[k]) matches Some(Err(KVError::Internal(m)))
                            && m@ == message@
                    } else {
                        final(self).slots()[k] == old(self).slots()[k]
                    }
                },
    {
        let ghost before = self.slots@;
        let mut j: usize = 0;
        while j < members.len()
            invariant
                j <= members.len(),
                self.slots@.len() == before.len(),
                forall|x: int| 0 <= x < members@.len() ==> (#[trigger] members@[x]) < before.len(),
                forall|k: int|
                    0 <= k < before.len() ==> {
                        if members@.take(j as int).contains(k as usize) {
                            (#[trigger] self.slots@[k]) matches Some(Err(KVError::Internal(m)))
                                && m@ == message@
                        } else {
                            self.slots@[k] == before[k]
                        }
                    },
            decreases members.len() - j,
        {
            let at: usize = members[j];
            let ghost prior = self.slots@;
            self.slots.set(at, Some(Err(KVError::Internal(message.to_owned()))));
            proof {
                let a = members@.take(j as int);
                let b = members@.take(j + 1);
                assert(b =~= a.push(at));
                let total = self.slots.len();
                assert forall|k: int| 0 <= k < before.len() implies {
                    if b.contains(k as usize) {
                        (#[trigger] self.slots@[k]) matches Some(Err(KVError::Internal(m))) && m@
                            == message@
                    } else {
                        self.slots@[k] == before[k]
                    }
                } by {
                    if k == at {
                        assert(b[j as int] == k as usize);
                    } else {
                        assert(prior[k] == self.slots@[k]);
                        if a.contains(k as usize) {
                            let y = choose|y: int| 0 <= y < a.len() && a[y] == k as usize;
                            assert(b[y] == k as usize);
                        }
                        if b.contains(k as usize) {
                            let y = choose|y: int| 0 <= y < b.len() && b[y] == k as usize;
                            assert(a[y] == k as usize);
                        }
                    }
                }
            }
            j = j + 1;
        }
        proof {
            assert(members@.take(j as int) =~= members@);
        }
    }

    /// The answers in the order of the requests. A request without an answer has failed.
    pub fn finish(self) -> (r: Vec<Result<T, KVError>>)
        ensures
            r@.len() == self.slots().len(),
            forall|k: int|
                0 <= k < r@.len() ==> match self.slots()[k] {
                    Some(x) => (#[trigger] r@[k]) == x,
                    None => r@[k] matches Err(KVError::Internal(m)) && m@ == "missing slot"@,
                },
    {
        let ghost all = self.slots@;
        let mut out: Vec<Result<T, KVError>> = Vec::new();
        for s in it: self.slots
            invariant
                it.seq() == all,
                out@.len() == it.index(),
                forall|k: int|
                    0 <= k < out@.len() ==> match all[k] {
                        Some(x) => (#[trigger] out@[k]) == x,
                        None => out@[k] matches Err(KVError::Internal(m)) && m@
                            == "missing slot"@,
                    },
        {
            match s {
                Some(x) => {
                    out.push(x);
                },
                None => {
                    out.push(Err(KVError::Internal("missing slot".to_owned())));
                },
            }
        }
        out
    }
}

/// The answers with those of one device at the first `n` positions of its group.
pub open spec fn filled<T>(
    slots: Seq<Option<Result<T, KVError>>>,
    members: Seq<usize>,
    results: Seq<Result<T, KVError>>,
    n: nat,
) -> Seq<Option<Result<T, KVError>>>
    decreases n,
{
    if n == 0 {
        slots
    } else {
        filled(slots, members, results, (n - 1) as nat).update(
            members[n - 1] as int,
            Some(results[n - 1]),
        )
    }
}

/// A device's answers end up at the positions of its requests, and nowhere else.
pub proof fn answers_reach_their_requests<T>(
    slots: Seq<Option<Result<T, KVError>>>,
    members: Seq<usize>,
    results: Seq<Result<T, KVError>>,
    n: nat,
)
    requires
        n <= members.len(),
        n <= results.len(),
        forall|j: int| 0 <= j < members.len() ==> (#[trigger] members[j]) < slots.len(),
        forall|i: int, j: int|
            0 <= i < j < members.len() ==> (#[trigger] members[i]) < (#[trigger] members[j]),
    ensures
        filled(slots, members, results, n).len() == slots.len(),
        forall|j: int|
            0 <= j < n ==> filled(slots, members, results, n)[(#[trigger] members[j]) as int]
                == Some(results[j]),
        forall|k: int|
            0 <= k < slots.len() && (forall|j: int| 0 <= j < n ==> (#[trigger] members[j]) != k)
                ==> #[trigger] filled(slots, members, results, n)[k] == slots[k],
    decreases n,
{
    if n > 0 {
        let m = (n - 1) as nat;
        answers_reach_their_requests(slots, members, results, m);
        let f = filled(slots, members, results, m);
        assert forall|j: int| 0 <= j < n implies filled(slots, members, results, n)[(
        #[trigger] members[j]) as int] == Some(results[j]) by {
            if j < m {
                assert(members[j] < members[m as int]);
            }
        }
    }
}

/// What came of a device's share of a batch.
pub enum Reply<T> {
    /// The device answered each of its requests.
    Results(Seq<Result<T, KVError>>),
    /// The device gave no answer.
    Silent(Seq<char>),
}

/// The answers at all positions after one device's reply was taken in, by [`Scatter::fill`] or
/// by [`Scatter::fail`].
pub open spec fn takes_in<T>(
    before: Seq<Option<Result<T, KVError>>>,
    after: Seq<Option<Result<T, KVError>>>,
    members: Seq<usize>,
    reply: Reply<T>,
) -> bool {
    match reply {
        Reply::Results(r) => after == filled(before, members, r, members.len()),
        Reply::Silent(message) => {
            &&& after.len() == before.len()
            &&& forall|k: int|
                0 <= k < before.len() ==> if members.contains(k as usize) {
                    failed_with(#[trigger] after[k], message)
                } else {
                    after[k] == before[k]
                }
        },
    }
}

/// The request failed with this message.
pub open spec fn failed_with<T>(slot: Option<Result<T, KVError>>, message: Seq<char>) -> bool {
    slot matches Some(Err(KVError::Internal(m))) && m@ == message
}

/// Request `k` has its own answer: what its device answered to it, or the failure of its device.
pub open spec fn answered<T>(
    slot: Option<Result<T, KVError>>,
    reply: Reply<T>,
    own: Result<T, KVError>,
) -> bool {
    match reply {
        Reply::Results(_) => slot == Some(own),
        Reply::Silent(message) => failed_with(slot, message),
    }
}

/// Each device's results are those of its requests, in the order of its group.
pub open spec fn replies_are_of<T>(
    g: Seq<DeviceGroup>,
    replies: Seq<Reply<T>>,
    own: Seq<Result<T, KVError>>,
) -> bool {
    &&& replies.len() == g.len()
    &&& forall|i: int|
        0 <= i < g.len() ==> ((#[trigger] replies[i]) matches Reply::Results(r) ==> {
            &&& r.len() == g[i].members@.len()
            &&& forall|j: int|
                0 <= j < r.len() ==> (#[trigger] r[j]) == own[g[i].members@[j] as int]
        })
}

/// The replies were taken in one after the other, in the order in which the devices ended.
pub open spec fn taken_in_order<T>(
    states: Seq<Seq<Option<Result<T, KVError>>>>,
    g: Seq<DeviceGroup>,
    replies: Seq<Reply<T>>,
    order: Seq<int>,
) -> bool {
    &&& states.len() == order.len() + 1
    &&& forall|s: int| 0 <= s < order.len() ==> 0 <= (#[trigger] order[s]) < g.len()
    &&& forall|s: int, t: int|
        0 <= s < t < order.len() ==> (#[trigger] order[s]) != (#[trigger] order[t])
    &&& forall|s: int|
        #![trigger order[s]]
        0 <= s < order.len() ==> takes_in(
            states[s],
            states[s + 1],
            g[order[s]].members@,
            replies[order[s]],
        )
}

proof fn lemma_members(g: Seq<DeviceGroup>, devices: Seq<usize>, i: int)
    requires
        grouped(g, devices, devices.len()),
        devices.len() <= usize::MAX,
        0 <= i < g.len(),
    ensures
        forall|j: int|
            0 <= j < g[i].members@.len() ==> (#[trigger] g[i].members@[j]) < devices.len(),
        forall|a: int, b: int|
            0 <= a < b < g[i].members@.len() ==> (#[trigger] g[i].members@[a]) < (
            #[trigger] g[i].members@[b]),
{
    lemma_positions(devices, g[i].device, devices.len());
    assert(g[i].members@ == positions(devices, g[i].device, devices.len()));
}

proof fn lemma_taken_in_order<T>(
    states: Seq<Seq<Option<Result<T, KVError>>>>,
    g: Seq<DeviceGroup>,
    devices: Seq<usize>,
    replies: Seq<Reply<T>>,
    order: Seq<int>,
    own: Seq<Result<T, KVError>>,
    n: nat,
)
    requires
        grouped(g, devices, devices.len()),
        devices.len() <= usize::MAX,
        own.len() == devices.len(),
        replies_are_of(g, replies, own),
        taken_in_order(states, g, replies, order),
        states[0].len() == devices.len(),
        n <= order.len(),
    ensures
        states[n as int].len() == devices.len(),
        forall|s: int, j: int, k: int|
            0 <= s < n && #[trigger] at(g, order[s], j, k) ==> answered(
                states[n as int][k],
                replies[order[s]],
                own[k],
            ),
    decreases n,
{
    if n > 0 {
        let m = n - 1;
        lemma_taken_in_order(states, g, devices, replies, order, own, m as nat);
        let i = order[m];
        let members = g[i].members@;
        let before = states[m];
        let after = states[m + 1];
        assert(takes_in(before, after, members, replies[i]));
        lemma_members(g, devices, i);
        match replies[i] {
            Reply::Results(r) => {
                answers_reach_their_requests(before, members, r, members.len());
            },
            Reply::Silent(_) => {},
        }
        assert forall|s: int, j: int, k: int|
            0 <= s < n && #[trigger] at(g, order[s], j, k) implies answered(
            after[k],
            replies[order[s]],
            own[k],
        ) by {
            lemma_members(g, devices, order[s]);
            assert(g[order[s]].members@[j] < devices.len());
            every_request_is_dealt_out_once(g, devices, k);
            if s == m {
                assert(members[j] == k);
                assert(members.contains(k as usize));
            } else {
                assert(answered(before[k], replies[order[s]], own[k]));
                assert(order[s] != order[m]);
                if members.contains(k as usize) {
                    let b = choose|b: int| 0 <= b < members.len() && members[b] == k as usize;
                    assert(at(g, i, b, k));
                }
                assert forall|b: int| 0 <= b < members.len() implies (#[trigger] members[b]) != k by {
                    if members[b] == k {
                        assert(at(g, i, b, k));
                    }
                }
                assert(after[k] == before[k]);
            }
        }
    }
}

/// In whatever order the devices end, every request of a batch has its own answer in its own
/// place: what its device answered to it, or the failure of its device. Where every device
/// answered, the answers are those of the requests, in the order of the requests.
pub proof fn batch_is_answered_in_request_order<T>(
    states: Seq<Seq<Option<Result<T, KVError>>>>,
    g: Seq<DeviceGroup>,
    devices: Seq<usize>,
    replies: Seq<Reply<T>>,
    order: Seq<int>,
    own: Seq<Result<T, KVError>>,
)
    requires
        grouped(g, devices, devices.len()),
        devices.len() <= usize::MAX,
        own.len() == devices.len(),
        replies_are_of(g, replies, own),
        taken_in_order(states, g, replies, order),
        forall|i: int| 0 <= i < g.len() ==> #[trigger] order.contains(i),
        states[0] == Seq::new(devices.len(), |k: int| None::<Result<T, KVError>>),
    ensures
        states.last().len() == devices.len(),
        forall|i: int, j: int, k: int| #[trigger]
            at(g, i, j, k) ==> answered(states.last()[k], replies[i], own[k]),
        (forall|i: int| 0 <= i < g.len() ==> (#[trigger] replies[i]) is Results) ==> states.last()
            == Seq::new(devices.len(), |k: int| Some(own[k])),
{
    let n = order.len();
    lemma_taken_in_order(states, g, devices, replies, order, own, n);
    assert forall|i: int, j: int, k: int| #[trigger] at(g, i, j, k) implies answered(
        states.last()[k],
        replies[i],
        own[k],
    ) by {
        assert(order.contains(i));
        let s = choose|s: int| 0 <= s < order.len() && order[s] == i;
        assert(at(g, order[s], j, k));
    }
    if forall|i: int| 0 <= i < g.len() ==> (#[trigger] replies[i]) is Results {
        assert forall|k: int| 0 <= k < devices.len() implies #[trigger] states.last()[k] == Some(
            own[k],
        ) by {
            every_request_is_dealt_out_once(g, devices, k);
            let (i, j) = choose|i: int, j: int| #[trigger] at(g, i, j, k);
            assert(replies[i] is Results);
            assert(answered(states.last()[k], replies[i], own[k]));
        }
        assert(states.last() =~= Seq::new(devices.len(), |k: int| Some(own[k])));
    }
}

/// The executors that a configuration can name.
#[derive(Debug, Clone, Copy, PartialEq, Eq, Structural)]
pub enum ExecutorKind {
    /// Threads and ordinary reads and writes.
    ThreadPool,
    /// io_uring.
    IoUring,
    /// SPDK.
    Spdk,
}

/// Chooses the executor. One that was not built in cannot be chosen.
pub fn executor_kind(config: &Config, has_io_uring: bool, has_spdk: bool) -> (r: Result<
    ExecutorKind,
    KVError,
>)
    ensures
        ({
            let kind = config.io_executor.kind@;
            if kind == "tier_a"@ {
                r == Ok::<ExecutorKind, KVError>(ExecutorKind::ThreadPool)
            } else if kind == "tier_b"@ && has_io_uring {
                r == Ok::<ExecutorKind, KVError>(ExecutorKind::IoUring)
            } else if kind == "tier_c"@ && has_spdk {
                r == Ok::<ExecutorKind, KVError>(ExecutorKind::Spdk)
            } else {
                r is Err && r->Err_0 is Config && r->Err_0->Config_0@
                    == "unknown or unenabled io_executor.kind: "@ + kind
                    + " (does it need a feature flag?)"@
            }
        }),
{
    proof {
        reveal_strlit("tier_a");
        reveal_strlit("tier_b");
        reveal_strlit("tier_c");
        assert("tier_a"@[5] != "tier_b"@[5]);
        assert("tier_a"@[5] != "tier_c"@[5]);
        assert("tier_b"@[5] != "tier_c"@[5]);
    }
    let kind = config.io_executor.kind.as_str();
    if text::same(kind, "tier_a") {
        return Ok(ExecutorKind::ThreadPool);
    }
    if has_io_uring && text::same(kind, "tier_b") {
        return Ok(ExecutorKind::IoUring);
    }
    if has_spdk && text::same(kind, "tier_c") {
        return Ok(ExecutorKind::Spdk);
    }
    let mut message = "unknown or unenabled io_executor.kind: ".to_owned();
    message.append(kind);
    message.append(" (does it need a feature flag?)");
    Err(KVError::Config(message))
}

} // verus!
