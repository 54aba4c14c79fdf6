//! What the graphics devices say of the memory that processes hold on them.

use crate::text::{decimal, decimal_text, opt_text};
use std::collections::HashMap;
use vstd::prelude::*;

verus! {

broadcast use vstd::std_specs::hash::group_hash_axioms;

/// One reading of a device. What could not be read is absent: its name, its used and total
/// memory, the list of its processes, or what one of these holds.
#[derive(Debug)]
pub struct DeviceReading {
    pub index: u32,
    pub name: Option<String>,
    pub memory: Option<(u64, u64)>,
    pub processes: Option<Vec<(u32, Option<u64>)>>,
}

/// What a reading says.
pub struct ReadingText {
    pub index: u32,
    pub name: Option<Seq<char>>,
    pub memory: Option<(u64, u64)>,
    pub processes: Option<Seq<(u32, Option<u64>)>>,
}

impl View for DeviceReading {
    type V = ReadingText;

    open spec fn view(&self) -> ReadingText {
        ReadingText {
            index: self.index,
            name: opt_text(self.name),
            memory: self.memory,
            processes: match self.processes {
                Some(p) => Some(p@),
                None => None,
            },
        }
    }
}

/// What readings say.
pub open spec fn reading_texts(s: Seq<DeviceReading>) -> Seq<ReadingText> {
    Seq::new(s.len(), |i: int| s[i]@)
}

/// A device, with its used and total memory.
#[derive(Debug)]
pub struct GpuDevice {
    pub index: u32,
    pub name: String,
    pub used: u64,
    pub total: u64,
}

/// What a device says.
pub struct DeviceText {
    pub index: u32,
    pub name: Seq<char>,
    pub used: u64,
    pub total: u64,
}

impl View for GpuDevice {
    type V = DeviceText;

    open spec fn view(&self) -> DeviceText {
        DeviceText { index: self.index, name: self.name@, used: self.used, total: self.total }
    }
}

/// What devices say.
pub open spec fn device_texts(s: Seq<GpuDevice>) -> Seq<DeviceText> {
    Seq::new(s.len(), |i: int| s[i]@)
}

/// The device of a reading; a name that could not be read is made up from the index, and
/// memory that could not be read counts as none.
pub open spec fn device_of(r: ReadingText) -> DeviceText {
    DeviceText {
        index: r.index,
        name: match r.name {
            Some(name) => name,
            None => "GPU"@ + decimal(r.index as nat),
        },
        used: match r.memory {
            Some(m) => m.0,
            None => 0,
        },
        total: match r.memory {
            Some(m) => m.1,
            None => 0,
        },
    }
}

/// The devices of the readings.
pub open spec fn devices_of(readings: Seq<ReadingText>) -> Seq<DeviceText> {
    Seq::new(readings.len(), |i: int| device_of(readings[i]))
}

/// What a process holds, where what could not be read counts as nothing.
pub open spec fn held(memory: Option<u64>) -> nat {
    match memory {
        Some(m) => m as nat,
        None => 0,
    }
}

/// What a process holds on a device, told by the first `n` entries of its list.
pub open spec fn held_by(list: Seq<(u32, Option<u64>)>, pid: u32, n: int) -> nat
    decreases n,
{
    if n <= 0 {
        0
    } else {
        held_by(list, pid, n - 1) + if list[n - 1].0 == pid {
            held(list[n - 1].1)
        } else {
            0
        }
    }
}

/// What a process holds on the device of a reading.
pub open spec fn held_on(r: ReadingText, pid: u32) -> nat {
    match r.processes {
        Some(list) => held_by(list, pid, list.len() as int),
        None => 0,
    }
}

/// What a process holds on the devices of the first `n` readings.
pub open spec fn held_in_all(readings: Seq<ReadingText>, pid: u32, n: int) -> nat
    decreases n,
{
    if n <= 0 {
        0
    } else {
        held_in_all(readings, pid, n - 1) + held_on(readings[n - 1], pid)
    }
}

/// What a process holds on all devices.
pub open spec fn vram_of(readings: Seq<ReadingText>, pid: u32) -> nat {
    held_in_all(readings, pid, readings.len() as int)
}

/// Whether a table holds, for each process that holds memory, how much that is, and nothing
/// for any other.
pub open spec fn tells(table: Map<u32, u64>, amounts: spec_fn(u32) -> nat) -> bool {
    forall|pid: u32|
        #![trigger table.dom().contains(pid)]
        #![trigger amounts(pid)]
        {
            &&& table.dom().contains(pid) <==> amounts(pid) > 0
            &&& table.dom().contains(pid) ==> table[pid] == amounts(pid)
        }
}

/// One look at the devices: what each process holds on them, and the devices.
#[derive(Debug)]
pub struct GpuSample {
    pub by_pid: HashMap<u32, u64>,
    pub devices: Vec<GpuDevice>,
}

proof fn lemma_held_by_grows(list: Seq<(u32, Option<u64>)>, pid: u32, a: int, b: int)
    requires
        a <= b,
    ensures
        held_by(list, pid, a) <= held_by(list, pid, b),
    decreases b - a,
{
    if a < b {
        lemma_held_by_grows(list, pid, a, b - 1);
    }
}

proof fn lemma_held_in_all_grows(readings: Seq<ReadingText>, pid: u32, a: int, b: int)
    requires
        a <= b,
    ensures
        held_in_all(readings, pid, a) <= held_in_all(readings, pid, b),
    decreases b - a,
{
    if a < b {
        lemma_held_in_all_grows(readings, pid, a, b - 1);
    }
}

fn make_device(reading: &DeviceReading) -> (r: GpuDevice)
    ensures
        r@ == device_of(reading@),
{
    let name = match &reading.name {
        Some(name) => name.clone(),
        None => {
            let mut name = String::from_str("GPU");
            name.append(&decimal_text(reading.index as u128));
            name
        },
    };
    let (used, total) = match reading.memory {
        Some(m) => m,
        None => (0, 0),
    };
    GpuDevice { index: reading.index, name, used, total }
}

/// Adds what the list of one device says to what the table holds already, given by `base`.
/// `false` if what a process holds is more than the table can say.
fn add_list(
    table: &mut HashMap<u32, u64>,
    list: &Vec<(u32, Option<u64>)>,
    Ghost(base): Ghost<spec_fn(u32) -> nat>,
) -> (r: bool)
    requires
        tells(old(table)@, base),
    ensures
        r ==> tells(final(table)@, |pid: u32| base(pid) + held_by(list@, pid, list@.len() as int)),
        !r ==> exists|pid: u32|
            #[trigger] base(pid) + held_by(list@, pid, list@.len() as int) > u64::MAX,
{
    let mut i: usize = 0;
    assert(tells(table@, |pid: u32| base(pid) + held_by(list@, pid, 0)));
    while i < list.len()
        invariant
            i <= list@.len(),
            tells(table@, |pid: u32| base(pid) + held_by(list@, pid, i as int)),
        decreases list@.len() - i,
    {
        let ghost amounts = |pid: u32| base(pid) + held_by(list@, pid, i as int);
        let ghost more = |pid: u32| base(pid) + held_by(list@, pid, i + 1);
        let ghost before = table@;
        let (pid, memory) = list[i];
        let memory: u64 = match memory {
            Some(m) => m,
            None => 0,
        };
        assert(memory == held(list@[i as int].1));
        assert(more(pid) == amounts(pid) + memory);
        assert forall|q: u32| q != pid implies #[trigger] more(q) == amounts(q) by {}
        if memory > 0 {
            let known: u64 = match table.get(&pid) {
                Some(m) => *m,
                None => 0,
            };
            assert(known == amounts(pid));
            if memory > u64::MAX - known {
                proof {
                    lemma_held_by_grows(list@, pid, i + 1, list@.len() as int);
                    assert(base(pid) + held_by(list@, pid, list@.len() as int) > u64::MAX);
                }
                return false;
            }
            table.insert(pid, known + memory);
            assert forall|q: u32|
                #![trigger table@.dom().contains(q)]
                #![trigger more(q)]
                {
                    &&& table@.dom().contains(q) <==> more(q) > 0
                    &&& table@.dom().contains(q) ==> table@[q] == more(q)
                } by {
                if q != pid {
                    assert(table@.dom().contains(q) == before.dom().contains(q));
                    assert(more(q) == amounts(q));
                }
            }
        } else {
            assert forall|q: u32|
                #![trigger table@.dom().contains(q)]
                #![trigger more(q)]
                {
                    &&& table@.dom().contains(q) <==> more(q) > 0
                    &&& table@.dom().contains(q) ==> table@[q] == more(q)
                } by {
                assert(more(q) == amounts(q));
            }
        }
        i = i + 1;
        assert(tells(table@, |pid: u32| base(pid) + held_by(list@, pid, i as int)));
    }
    true
}

/// Adds up what each process holds over all devices. `None` if that is more than a number of
/// bytes can say.
pub fn gpu_sample(readings: &Vec<DeviceReading>) -> (r: Option<GpuSample>)
    ensures
        r is None <==> exists|pid: u32|
            #[trigger] vram_of(reading_texts(readings@), pid) > u64::MAX,
        r matches Some(s) ==> {
            &&& tells(s.by_pid@, |pid: u32| vram_of(reading_texts(readings@), pid))
            &&& device_texts(s.devices@) == devices_of(reading_texts(readings@))
        },
{
    let ghost all = reading_texts(readings@);
    let mut by_pid: HashMap<u32, u64> = HashMap::new();
    let mut devices: Vec<GpuDevice> = Vec::new();
    let mut i: usize = 0;
    assert(tells(by_pid@, |pid: u32| held_in_all(all, pid, 0)));
    while i < readings.len()
        invariant
            i <= readings@.len(),
            all == reading_texts(readings@),
            devices@.len() == i,
            forall|k: int| 0 <= k < i ==> (#[trigger] devices@[k])@ == device_of(all[k]),
            tells(by_pid@, |pid: u32| held_in_all(all, pid, i as int)),
        decreases readings@.len() - i,
    {
        assert(all[i as int] == readings@[i as int]@);
        devices.push(make_device(&readings[i]));
        let ghost amounts = |pid: u32| held_in_all(all, pid, i as int);
        let ghost more = |pid: u32| held_in_all(all, pid, i + 1);
        match &readings[i].processes {
            Some(list) => {
                let ghost sums = |pid: u32| amounts(pid) + held_by(list@, pid, list@.len() as int);
                let fits = add_list(&mut by_pid, list, Ghost(amounts));
                assert forall|pid: u32| #[trigger] more(pid) == sums(pid) by {}
                if !fits {
                    proof {
                        let pid = choose|pid: u32|
                            #[trigger] amounts(pid) + held_by(list@, pid, list@.len() as int)
                                > u64::MAX;
                        lemma_held_in_all_grows(all, pid, i + 1, all.len() as int);
                        assert(more(pid) == sums(pid));
                        assert(vram_of(all, pid) > u64::MAX);
                    }
                    return None;
                }
                assert(more =~= sums);
            },
            None => {
                assert(more =~= amounts);
            },
        }
        i = i + 1;
        assert(tells(by_pid@, |pid: u32| held_in_all(all, pid, i as int)));
    }
    proof {
        let amounts = |pid: u32| held_in_all(all, pid, i as int);
        assert(amounts =~= |pid: u32| vram_of(all, pid));
        assert forall|pid: u32| #[trigger] vram_of(all, pid) <= u64::MAX by {
            assert(amounts(pid) == vram_of(all, pid));
            if amounts(pid) > 0 {
                assert(by_pid@.dom().contains(pid));
            }
        }
        assert(device_texts(devices@) =~= devices_of(all));
    }
    Some(GpuSample { by_pid, devices })
}

/// What the start line says of the devices, where `count` is their number.
pub open spec fn gpu_note(count: Option<u32>) -> Seq<char> {
    match count {
        Some(n) => if n > 0 {
            "yes("@ + decimal(n as nat) + ")"@
        } else {
            "none"@
        },
        None => "none"@,
    }
}

/// Whether there is a device, where `count` is their number if it could be read.
pub fn gpu_ok(count: Option<u32>) -> (r: bool)
    ensures
        r == (count matches Some(n) && n > 0),
{
    match count {
        Some(n) => n > 0,
        None => false,
    }
}

/// The number of devices, where one that could not be read counts as none.
pub fn gpu_count(count: Option<u32>) -> (r: u32)
    ensures
        r == (match count {
            Some(n) => n,
            None => 0,
        }),
{
    match count {
        Some(n) => n,
        None => 0,
    }
}

/// What the start line says of the devices.
pub fn gpu_label(count: Option<u32>) -> (r: String)
    ensures
        r@ == gpu_note(count),
{
    if gpu_ok(count) {
        let mut r = String::from_str("yes(");
        r.append(&decimal_text(gpu_count(count) as u128));
        r.append(")");
        r
    } else {
        String::from_str("none")
    }
}

/// What a process holds on a device is the sum over its entries: an entry of the process adds
/// what it says, one that could not be read or belongs to another process adds nothing.
pub proof fn law_held_by(list: Seq<(u32, Option<u64>)>, entry: (u32, Option<u64>), pid: u32)
    ensures
        held_by(seq![], pid, 0) == 0,
        held_by(list.push(entry), pid, (list.len() + 1) as int) == held_by(
            list,
            pid,
            list.len() as int,
        ) + (if entry.0 == pid && entry.1 is Some {
            (entry.1->0) as nat
        } else {
            0nat
        }),
{
    lemma_held_prefix(list, list.push(entry), pid, list.len() as int);
}

proof fn lemma_held_prefix(
    a: Seq<(u32, Option<u64>)>,
    b: Seq<(u32, Option<u64>)>,
    pid: u32,
    n: int,
)
    requires
        n <= a.len() <= b.len(),
        forall|k: int| 0 <= k < n ==> #[trigger] a[k] == b[k],
    ensures
        held_by(a, pid, n) == held_by(b, pid, n),
    decreases n,
{
    if n > 0 {
        lemma_held_prefix(a, b, pid, n - 1);
        assert(a[n - 1] == b[n - 1]);
    }
}

/// What a process holds over all devices is the sum over the devices, in whatever order they
/// were read; a device whose list could not be read adds nothing.
pub proof fn law_vram_of(readings: Seq<ReadingText>, r: ReadingText, pid: u32)
    ensures
        vram_of(seq![], pid) == 0,
        r.processes is None ==> vram_of(readings.push(r), pid) == vram_of(readings, pid),
        r.processes matches Some(list) ==> vram_of(readings.push(r), pid) == vram_of(readings, pid)
            + held_by(list, pid, list.len() as int),
        vram_of(seq![r] + readings, pid) == vram_of(readings.push(r), pid),
{
    let n = readings.len() as int;
    lemma_all_prefix(readings, readings.push(r), pid, n);
    lemma_all_shift(r, readings, pid, n);
}

proof fn lemma_all_prefix(a: Seq<ReadingText>, b: Seq<ReadingText>, pid: u32, n: int)
    requires
        n <= a.len() <= b.len(),
        forall|k: int| 0 <= k < n ==> #[trigger] a[k] == b[k],
    ensures
        held_in_all(a, pid, n) == held_in_all(b, pid, n),
    decreases n,
{
    if n > 0 {
        lemma_all_prefix(a, b, pid, n - 1);
        assert(a[n - 1] == b[n - 1]);
    }
}

proof fn lemma_all_shift(r: ReadingText, readings: Seq<ReadingText>, pid: u32, n: int)
    requires
        0 <= n <= readings.len(),
    ensures
        held_in_all(seq![r] + readings, pid, n + 1) == held_on(r, pid) + held_in_all(
            readings,
            pid,
            n,
        ),
    decreases n,
{
    let all = seq![r] + readings;
    if n > 0 {
        lemma_all_shift(r, readings, pid, n - 1);
        assert(all[n] == readings[n - 1]);
    } else {
        assert(all[0] == r);
        assert(held_in_all(all, pid, 0) == 0);
    }
}

/// The table of what processes hold has an entry for each process that holds something, with
/// the whole of it, and for no other.
pub proof fn law_tells(table: Map<u32, u64>, amounts: spec_fn(u32) -> nat, pid: u32)
    requires
        tells(table, amounts),
    ensures
        amounts(pid) == 0 ==> !table.dom().contains(pid),
        amounts(pid) > 0 ==> table.dom().contains(pid) && table[pid] == amounts(pid),
{
}

/// Every reading gives one device, in the order of the readings: with its index, the name and
/// the memory that were read, used before total, and with `GPU` and the index in place of a name
/// and zeros in place of memory that was not.
pub proof fn law_devices(readings: Seq<ReadingText>, k: int)
    requires
        0 <= k < readings.len(),
    ensures
        devices_of(readings).len() == readings.len(),
        devices_of(readings)[k].index == readings[k].index,
        readings[k].name matches Some(name) ==> devices_of(readings)[k].name == name,
        readings[k].name is None ==> devices_of(readings)[k].name == seq!['G', 'P', 'U'] + decimal(
            readings[k].index as nat,
        ),
        readings[k].memory matches Some(m) ==> devices_of(readings)[k].used == m.0 && devices_of(
            readings,
        )[k].total == m.1,
        readings[k].memory is None ==> devices_of(readings)[k].used == 0 && devices_of(
            readings,
        )[k].total == 0,
{
    reveal_strlit("GPU");
    assert("GPU"@ =~= seq!['G', 'P', 'U']);
}

/// The start line gives the number of devices, and says that there is none where there is none
/// or none could be counted.
pub proof fn law_gpu_note(count: u32)
    ensures
        gpu_note(None) == seq!['n', 'o', 'n', 'e'],
        gpu_note(Some(0)) == seq!['n', 'o', 'n', 'e'],
        count > 0 ==> gpu_note(Some(count)) == seq!['y', 'e', 's', '('] + decimal(count as nat)
            + seq![')'],
{
    reveal_strlit("none");
    reveal_strlit("yes(");
    reveal_strlit(")");
    assert("none"@ =~= seq!['n', 'o', 'n', 'e']);
    assert("yes("@ =~= seq!['y', 'e', 's', '(']);
    assert(")"@ =~= seq![')']);
}

} // verus!
