//! One sample of a tree of processes: what each of them holds at one time.

use crate::watch::process::{
    find_process, is_tree, label_at, label_for, lemma_process_at, parent_of, process_of,
    process_texts, ProcessInfo, ProcessText,
};
use std::collections::HashMap;
use vstd::prelude::*;

verus! {

broadcast use vstd::std_specs::hash::group_hash_axioms;

/// What one process holds: its number, its label, and its bytes of memory, in the machine
/// and on graphics devices.
#[derive(Debug)]
pub struct Row {
    pub pid: u32,
    pub label: String,
    pub rss: u64,
    pub vram: u64,
}

/// What a row says.
pub struct RowText {
    pub pid: u32,
    pub label: Seq<char>,
    pub rss: u64,
    pub vram: u64,
}

impl View for Row {
    type V = RowText;

    open spec fn view(&self) -> RowText {
        RowText { pid: self.pid, label: self.label@, rss: self.rss, vram: self.vram }
    }
}

/// What rows say.
pub open spec fn row_texts(s: Seq<Row>) -> Seq<RowText> {
    Seq::new(s.len(), |i: int| s[i]@)
}

/// What the table says of a process, where one that is not in it holds nothing.
pub open spec fn vram_at(vram: Map<u32, u64>, pid: u32) -> u64 {
    if vram.dom().contains(pid) {
        vram[pid]
    } else {
        0
    }
}

/// The row of a process.
pub open spec fn row_of(ps: Seq<ProcessText>, p: ProcessText, vram: Map<u32, u64>) -> RowText {
    RowText {
        pid: p.pid,
        label: label_at(ps, p.pid),
        rss: p.memory,
        vram: vram_at(vram, p.pid),
    }
}

/// The rows of the first `n` processes of a tree, where those that are gone have none.
pub open spec fn rows_of(
    ps: Seq<ProcessText>,
    tree: Seq<u32>,
    vram: Map<u32, u64>,
    n: int,
) -> Seq<RowText>
    decreases n,
{
    if n <= 0 {
        seq![]
    } else {
        let before = rows_of(ps, tree, vram, n - 1);
        match process_of(ps, tree[n - 1]) {
            Some(p) => before.push(row_of(ps, p, vram)),
            None => before,
        }
    }
}

/// The rows of the processes of a tree.
pub fn sample_rows(
    processes: &Vec<ProcessInfo>,
    tree: &Vec<u32>,
    vram: &HashMap<u32, u64>,
) -> (rows: Vec<Row>)
    ensures
        row_texts(rows@) == rows_of(
            process_texts(processes@),
            tree@,
            vram@,
            tree@.len() as int,
        ),
{
    let ghost ps = process_texts(processes@);
    let mut rows: Vec<Row> = Vec::new();
    let mut i: usize = 0;
    assert(row_texts(rows@) =~= rows_of(ps, tree@, vram@, 0));
    while i < tree.len()
        invariant
            i <= tree@.len(),
            ps == process_texts(processes@),
            row_texts(rows@) == rows_of(ps, tree@, vram@, i as int),
        decreases tree@.len() - i,
    {
        let ghost before = row_texts(rows@);
        let pid: u32 = tree[i];
        match find_process(processes, pid) {
            Some(k) => {
                proof {
                    lemma_process_at(ps, pid, 0);
                    assert(ps[k as int] == processes@[k as int]@);
                }
                let held: u64 = match vram.get(&pid) {
                    Some(bytes) => *bytes,
                    None => 0,
                };
                rows.push(
                    Row {
                        pid,
                        label: label_for(processes, pid),
                        rss: processes[k].memory,
                        vram: held,
                    },
                );
                assert(row_texts(rows@) =~= before.push(row_of(ps, ps[k as int], vram@)));
            },
            None => {},
        }
        i = i + 1;
    }
    rows
}

proof fn lemma_rows_of(ps: Seq<ProcessText>, tree: Seq<u32>, vram: Map<u32, u64>, n: int)
    requires
        0 <= n <= tree.len(),
        forall|i: int| 0 <= i < tree.len() ==> process_of(ps, #[trigger] tree[i]) is Some,
    ensures
        rows_of(ps, tree, vram, n).len() == n,
        forall|i: int|
            0 <= i < n ==> {
                let p = process_of(ps, tree[i])->0;
                #[trigger] rows_of(ps, tree, vram, n)[i] == row_of(ps, p, vram) && p.pid == tree[i]
            },
    decreases n,
{
    if n > 0 {
        lemma_rows_of(ps, tree, vram, n - 1);
        assert(process_of(ps, tree[n - 1]) is Some);
        lemma_process_at(ps, tree[n - 1], 0);
    }
}

/// While the root runs, every process of its tree is sampled once, with the memory it holds,
/// in the order of the tree.
pub proof fn law_whole_tree_is_sampled(
    ps: Seq<ProcessText>,
    root: u32,
    tree: Seq<u32>,
    vram: Map<u32, u64>,
)
    requires
        is_tree(ps, root, tree),
        process_of(ps, root) is Some,
    ensures
        rows_of(ps, tree, vram, tree.len() as int).len() == tree.len(),
        forall|i: int|
            0 <= i < tree.len() ==> {
                let row = #[trigger] rows_of(ps, tree, vram, tree.len() as int)[i];
                &&& row.pid == tree[i]
                &&& process_of(ps, tree[i]) matches Some(p) && row.rss == p.memory
                &&& row.vram == vram_at(vram, tree[i])
                &&& row.label == label_at(ps, tree[i])
            },
{
    assert forall|i: int| 0 <= i < tree.len() implies process_of(
        ps,
        #[trigger] tree[i],
    ) is Some by {
        if i > 0 {
            let j = choose|j: int|
                0 <= j < i && parent_of(ps, tree[i]) == Some(#[trigger] tree[j]);
            assert(parent_of(ps, tree[i]) is Some);
        }
    }
    lemma_rows_of(ps, tree, vram, tree.len() as int);
}

/// How many of the first `n` processes of a tree still run.
pub open spec fn running_count(ps: Seq<ProcessText>, tree: Seq<u32>, n: int) -> nat
    decreases n,
{
    if n <= 0 {
        0
    } else {
        running_count(ps, tree, n - 1) + if exists|i: int|
            0 <= i < ps.len() && (#[trigger] ps[i]).pid == tree[n - 1] {
            1nat
        } else {
            0nat
        }
    }
}

/// Each process of a tree that still runs has one row, in the order of the tree, with what the
/// process list says it holds in the machine and what the table says it holds on devices, which
/// is nothing where the table does not know it. One that is gone has none.
pub proof fn law_every_row(
    ps: Seq<ProcessText>,
    tree: Seq<u32>,
    vram: Map<u32, u64>,
    n: int,
    k: int,
)
    requires
        0 <= k < n <= tree.len(),
    ensures
        rows_of(ps, tree, vram, n).len() == running_count(ps, tree, n),
        (exists|i: int| 0 <= i < ps.len() && (#[trigger] ps[i]).pid == tree[k]) ==> {
            let at = running_count(ps, tree, k);
            let row = rows_of(ps, tree, vram, n)[at as int];
            &&& at < rows_of(ps, tree, vram, n).len()
            &&& row.pid == tree[k]
            &&& exists|i: int|
                0 <= i < ps.len() && (#[trigger] ps[i]).pid == tree[k] && ps[i].memory == row.rss
            &&& vram.dom().contains(tree[k]) ==> row.vram == vram[tree[k]]
            &&& !vram.dom().contains(tree[k]) ==> row.vram == 0
            &&& row.label == label_at(ps, tree[k])
        },
    decreases n,
{
    let pid = tree[n - 1];
    lemma_process_at(ps, pid, 0);
    if exists|i: int| 0 <= i < ps.len() && (#[trigger] ps[i]).pid == pid {
        let i = choose|i: int| 0 <= i < ps.len() && (#[trigger] ps[i]).pid == pid;
        assert(process_of(ps, pid) is Some);
    }
    if n > 1 {
        let m = if k < n - 1 {
            k
        } else {
            0
        };
        law_every_row(ps, tree, vram, n - 1, m);
    } else {
        assert(rows_of(ps, tree, vram, 0).len() == 0);
        assert(running_count(ps, tree, 0) == 0);
    }
}

} // verus!
