//! Processes: what they are called, which of them belong together, and which one is watched.

use crate::text::{
    begins, begins_with, contains, contains_char, decimal, decimal_text, ends_with, join, joined,
    occurs, opt_str_text, opt_text, stands_at, starts_with, texts, to_chars, slice_text,
};
use vstd::prelude::*;

verus! {

/// A process, as one look at the system shows it: its number, the number of its parent, its
/// name, its command line and the bytes of memory that it holds.
#[derive(Debug)]
pub struct ProcessInfo {
    pub pid: u32,
    pub parent: Option<u32>,
    pub name: String,
    pub cmd: Vec<String>,
    pub memory: u64,
}

/// What a process says.
pub struct ProcessText {
    pub pid: u32,
    pub parent: Option<u32>,
    pub name: Seq<char>,
    pub cmd: Seq<Seq<char>>,
    pub memory: u64,
}

impl View for ProcessInfo {
    type V = ProcessText;

    open spec fn view(&self) -> ProcessText {
        ProcessText {
            pid: self.pid,
            parent: self.parent,
            name: self.name@,
            cmd: texts(self.cmd@),
            memory: self.memory,
        }
    }
}

/// What processes say.
pub open spec fn process_texts(s: Seq<ProcessInfo>) -> Seq<ProcessText> {
    Seq::new(s.len(), |i: int| s[i]@)
}

/// Whether no two processes have the same number.
pub open spec fn distinct(ps: Seq<ProcessText>) -> bool {
    forall|i: int, j: int|
        0 <= i < ps.len() && 0 <= j < ps.len() && (#[trigger] ps[i]).pid == (#[trigger] ps[j]).pid
            ==> i == j
}

/// The position of the first process of the given number from `i` on, or the number of
/// processes.
pub open spec fn process_at(ps: Seq<ProcessText>, pid: u32, i: int) -> int
    decreases ps.len() - i,
{
    if i >= ps.len() {
        ps.len() as int
    } else if ps[i].pid == pid {
        i
    } else {
        process_at(ps, pid, i + 1)
    }
}

pub(crate) proof fn lemma_process_at(ps: Seq<ProcessText>, pid: u32, i: int)
    requires
        0 <= i <= ps.len(),
    ensures
        i <= process_at(ps, pid, i) <= ps.len(),
        process_at(ps, pid, i) < ps.len() ==> ps[process_at(ps, pid, i)].pid == pid,
        forall|k: int| i <= k < process_at(ps, pid, i) ==> (#[trigger] ps[k]).pid != pid,
    decreases ps.len() - i,
{
    if i < ps.len() && ps[i].pid != pid {
        lemma_process_at(ps, pid, i + 1);
    }
}

/// The process of the given number.
pub open spec fn process_of(ps: Seq<ProcessText>, pid: u32) -> Option<ProcessText> {
    let i = process_at(ps, pid, 0);
    if i < ps.len() {
        Some(ps[i])
    } else {
        None
    }
}

/// The position of the process of the given number.
pub fn find_process(processes: &Vec<ProcessInfo>, pid: u32) -> (r: Option<usize>)
    ensures
        r matches Some(i) ==> i < processes@.len() && process_of(
            process_texts(processes@),
            pid,
        ) == Some(processes@[i as int]@),
        r is None ==> process_of(process_texts(processes@), pid) is None,
{
    let ghost ps = process_texts(processes@);
    let mut i: usize = 0;
    while i < processes.len()
        invariant
            i <= processes@.len(),
            ps == process_texts(processes@),
            process_at(ps, pid, 0) == process_at(ps, pid, i as int),
        decreases processes@.len() - i,
    {
        assert(ps[i as int] == processes@[i as int]@);
        if processes[i].pid == pid {
            return Some(i);
        }
        i = i + 1;
    }
    None
}

// ---- labels --------------------------------------------------------------------------------

/// Whether a character parts the components of a path.
pub open spec fn separator(c: char) -> bool {
    c == '/' || c == '\\'
}

/// What follows the last separator of a path, or all of it where there is none.
pub open spec fn base_of(s: Seq<char>) -> Seq<char>
    decreases s.len(),
{
    if s.len() == 0 || separator(s.last()) {
        seq![]
    } else {
        base_of(s.drop_last()).push(s.last())
    }
}

proof fn lemma_base_of(s: Seq<char>, n: int)
    requires
        0 <= n <= s.len(),
        forall|k: int| n <= k < s.len() ==> !separator(#[trigger] s[k]),
        n > 0 ==> separator(s[n - 1]),
    ensures
        base_of(s) == s.skip(n),
    decreases s.len(),
{
    if n == s.len() {
        assert(base_of(s) =~= s.skip(n));
    } else {
        assert(!separator(s[s.len() - 1]));
        lemma_base_of(s.drop_last(), n);
        assert(s.drop_last().skip(n).push(s.last()) =~= s.skip(n));
    }
}

/// The last component of a path holds no separator.
pub proof fn law_base_has_no_separator(s: Seq<char>)
    ensures
        forall|k: int| 0 <= k < base_of(s).len() ==> !separator(#[trigger] base_of(s)[k]),
        base_of(s).len() <= s.len(),
        stands_at(s, base_of(s), s.len() - base_of(s).len()),
    decreases s.len(),
{
    if s.len() > 0 && !separator(s.last()) {
        law_base_has_no_separator(s.drop_last());
        let n = s.len() - base_of(s).len();
        assert(s.subrange(n, n + base_of(s).len()) =~= s.drop_last().subrange(
            n,
            n + base_of(s.drop_last()).len(),
        ).push(s.last()));
    } else {
        assert(s.subrange(s.len() as int, s.len() as int) =~= base_of(s));
    }
}

/// What follows the last separator of a path, or all of it where there is none.
pub fn basename(s: &str) -> (r: String)
    ensures
        r@ == base_of(s@),
{
    let text = to_chars(s);
    let mut n: usize = text.len();
    while n > 0 && text[n - 1] != '/' && text[n - 1] != '\\'
        invariant
            n <= text@.len(),
            forall|k: int| n <= k < text@.len() ==> !separator(#[trigger] text@[k]),
        decreases n,
    {
        n = n - 1;
    }
    proof {
        lemma_base_of(text@, n as int);
        assert(text@.subrange(n as int, text@.len() as int) =~= text@.skip(n as int));
    }
    slice_text(&text, n, text.len())
}

/// Whether a token of a command line looks like the path of a script, and not like a device
/// or a temporary file.
pub open spec fn path_like(token: Seq<char>) -> bool {
    &&& token.contains('/')
    &&& !stands_at(token, "/dev"@, 0)
    &&& !stands_at(token, "/tmp"@, 0)
}

/// Whether a token of a command line names the script that is run: a Python file, or a path;
/// a flag never does.
pub open spec fn names_script(token: Seq<char>) -> bool {
    &&& !begins(token, '-')
    &&& {
        ||| stands_at(token, ".py"@, token.len() - 3)
        ||| (path_like(token) && base_of(token).len() > 0)
    }
}

/// The label of a command line, where `exe` is the program: the program and the first script
/// that a token from `i` on names.
pub open spec fn label_from(exe: Seq<char>, cmd: Seq<Seq<char>>, i: int) -> Seq<char>
    decreases cmd.len() - i,
{
    if i >= cmd.len() {
        exe
    } else if names_script(cmd[i]) {
        exe + ":"@ + base_of(cmd[i])
    } else {
        label_from(exe, cmd, i + 1)
    }
}

/// The label of a process: the script that it runs, told by its command line, or its name
/// where there is none.
pub open spec fn label_of(p: ProcessText) -> Seq<char> {
    if p.cmd.len() == 0 {
        p.name
    } else {
        label_from(base_of(p.cmd[0]), p.cmd, 1)
    }
}

/// The label of the process of the given number.
pub open spec fn label_at(ps: Seq<ProcessText>, pid: u32) -> Seq<char> {
    match process_of(ps, pid) {
        Some(p) => label_of(p),
        None => "gone"@,
    }
}

fn is_script(token: &str) -> (r: bool)
    ensures
        r == names_script(token@),
{
    proof {
        reveal_strlit(".py");
    }
    if begins_with(token, '-') {
        return false;
    }
    if ends_with(token, ".py") {
        return true;
    }
    if contains_char(token, '/') && !starts_with(token, "/dev") && !starts_with(token, "/tmp") {
        !basename(token).as_str().is_empty()
    } else {
        false
    }
}

fn make_label(process: &ProcessInfo) -> (r: String)
    ensures
        r@ == label_of(process@),
{
    if process.cmd.len() == 0 {
        return process.name.clone();
    }
    let ghost cmd = texts(process.cmd@);
    let exe = basename(&process.cmd[0]);
    let mut i: usize = 1;
    while i < process.cmd.len()
        invariant
            1 <= i <= process.cmd@.len(),
            cmd == texts(process.cmd@),
            exe@ == base_of(cmd[0]),
            label_from(exe@, cmd, 1) == label_from(exe@, cmd, i as int),
        decreases process.cmd@.len() - i,
    {
        assert(cmd[i as int] == process.cmd@[i as int]@);
        if is_script(&process.cmd[i]) {
            let mut r = exe.clone();
            r.append(":");
            r.append(&basename(&process.cmd[i]));
            return r;
        }
        i = i + 1;
    }
    exe
}

/// The label of the process of the given number: the script that it runs.
pub fn label_for(processes: &Vec<ProcessInfo>, pid: u32) -> (r: String)
    ensures
        r@ == label_at(process_texts(processes@), pid),
{
    match find_process(processes, pid) {
        Some(i) => make_label(&processes[i]),
        None => String::from_str("gone"),
    }
}

// ---- the tree ------------------------------------------------------------------------------

/// The parent of the process of the given number.
pub open spec fn parent_of(ps: Seq<ProcessText>, pid: u32) -> Option<u32> {
    match process_of(ps, pid) {
        Some(p) => p.parent,
        None => None,
    }
}

/// The ancestor of a process `n` generations back.
pub open spec fn ancestor(ps: Seq<ProcessText>, pid: u32, n: nat) -> Option<u32>
    decreases n,
{
    if n == 0 {
        Some(pid)
    } else {
        match parent_of(ps, pid) {
            Some(parent) => ancestor(ps, parent, (n - 1) as nat),
            None => None,
        }
    }
}

/// Whether a process is the root or descends from it.
pub open spec fn descends(ps: Seq<ProcessText>, pid: u32, root: u32) -> bool {
    exists|n: nat| #[trigger] ancestor(ps, pid, n) == Some(root)
}

/// Whether a process is an ancestor of itself.
pub open spec fn own_ancestor(ps: Seq<ProcessText>, pid: u32) -> bool {
    exists|n: nat| n > 0 && #[trigger] ancestor(ps, pid, n) == Some(pid)
}

/// Whether the tree of a root is complete and nothing else: it starts with the root, holds
/// every descendant of it once, and each after its parent.
pub open spec fn is_tree(ps: Seq<ProcessText>, root: u32, tree: Seq<u32>) -> bool {
    &&& tree.len() > 0
    &&& tree[0] == root
    &&& tree.no_duplicates()
    &&& forall|pid: u32| #[trigger] tree.contains(pid) <==> descends(ps, pid, root)
    &&& forall|i: int|
        0 < i < tree.len() ==> exists|j: int|
            0 <= j < i && parent_of(ps, #[trigger] tree[i]) == Some(#[trigger] tree[j])
}

/// Ancestors of ancestors are ancestors.
proof fn lemma_ancestor_add(ps: Seq<ProcessText>, pid: u32, a: nat, b: nat)
    requires
        ancestor(ps, pid, a) is Some,
    ensures
        ancestor(ps, pid, a + b) == ancestor(ps, ancestor(ps, pid, a)->0, b),
    decreases a,
{
    if a > 0 {
        let parent = parent_of(ps, pid)->0;
        lemma_ancestor_add(ps, parent, (a - 1) as nat, b);
    }
}

/// The numbers of the processes among the first `n` whose parent is `p`.
pub open spec fn children(ps: Seq<ProcessText>, p: u32, n: int) -> Seq<u32>
    decreases n,
{
    if n <= 0 {
        seq![]
    } else if ps[n - 1].parent == Some(p) {
        children(ps, p, n - 1).push(ps[n - 1].pid)
    } else {
        children(ps, p, n - 1)
    }
}

proof fn lemma_children(ps: Seq<ProcessText>, p: u32, n: int)
    requires
        distinct(ps),
        0 <= n <= ps.len(),
    ensures
        children(ps, p, n).no_duplicates(),
        forall|i: int|
            0 <= i < children(ps, p, n).len() ==> {
                &&& parent_of(ps, #[trigger] children(ps, p, n)[i]) == Some(p)
                &&& process_at(ps, children(ps, p, n)[i], 0) < n
            },
        forall|pid: u32|
            parent_of(ps, pid) == Some(p) && process_at(ps, pid, 0) < n
                ==> #[trigger] children(ps, p, n).contains(pid),
    decreases n,
{
    if n > 0 {
        lemma_children(ps, p, n - 1);
        let fewer = children(ps, p, n - 1);
        let all = children(ps, p, n);
        let pid = ps[n - 1].pid;
        lemma_process_at(ps, pid, 0);
        assert(process_at(ps, pid, 0) == n - 1);
        assert(forall|i: int| 0 <= i < fewer.len() ==> fewer[i] == #[trigger] all[i]);
        if ps[n - 1].parent == Some(p) {
            assert(parent_of(ps, pid) == Some(p));
            assert(all[fewer.len() as int] == pid);
            assert forall|i: int| 0 <= i < fewer.len() implies fewer[i] != pid by {
                assert(process_at(ps, fewer[i], 0) < n - 1);
            }
        }
        assert forall|k: u32|
            parent_of(ps, k) == Some(p) && process_at(ps, k, 0) < n implies
            #[trigger] all.contains(k) by {
            lemma_process_at(ps, k, 0);
            if process_at(ps, k, 0) == n - 1 {
                assert(k == pid);
                assert(all[fewer.len() as int] == k);
            } else {
                assert(fewer.contains(k));
                let i = choose|i: int| 0 <= i < fewer.len() && fewer[i] == k;
                assert(all[i] == k);
            }
        }
    } else {
        assert forall|k: u32|
            parent_of(ps, k) == Some(p) && process_at(ps, k, 0) < n implies
            #[trigger] children(ps, p, n).contains(k) by {
            lemma_process_at(ps, k, 0);
        }
    }
}

/// A process that has a parent is among the processes.
proof fn lemma_has_parent(ps: Seq<ProcessText>, pid: u32)
    requires
        parent_of(ps, pid) is Some,
    ensures
        0 <= process_at(ps, pid, 0) < ps.len(),
        ps[process_at(ps, pid, 0)].pid == pid,
{
    lemma_process_at(ps, pid, 0);
}

/// The numbers of the processes.
pub open spec fn pids(ps: Seq<ProcessText>) -> Seq<u32> {
    Seq::new(ps.len(), |i: int| ps[i].pid)
}

/// Different processes that have a parent are no more than there are processes.
proof fn lemma_no_more_than(ps: Seq<ProcessText>, s: Seq<u32>)
    requires
        s.no_duplicates(),
        forall|i: int| 0 <= i < s.len() ==> parent_of(ps, #[trigger] s[i]) is Some,
    ensures
        s.len() <= ps.len(),
{
    let all = pids(ps);
    s.unique_seq_to_set();
    all.lemma_cardinality_of_set();
    assert forall|pid: u32| s.to_set().contains(pid) implies all.to_set().contains(pid) by {
        let i = choose|i: int| 0 <= i < s.len() && s[i] == pid;
        assert(parent_of(ps, s[i]) is Some);
        lemma_has_parent(ps, pid);
        assert(all[process_at(ps, pid, 0)] == pid);
    }
    vstd::set_lib::lemma_len_subset(s.to_set(), all.to_set());
}

/// What was found is the root and more, nothing twice; what waits was found, and waits once.
spec fn found_once(root: u32, out: Seq<u32>, stack: Seq<u32>) -> bool {
    &&& out.len() > 0
    &&& out[0] == root
    &&& out.no_duplicates()
    &&& stack.no_duplicates()
    &&& forall|k: int| 0 <= k < stack.len() ==> out.contains(#[trigger] stack[k])
}

/// All that was found descends from the root.
spec fn all_descend(ps: Seq<ProcessText>, root: u32, out: Seq<u32>) -> bool {
    forall|k: int| 0 <= k < out.len() ==> descends(ps, #[trigger] out[k], root)
}

/// Whether the parent of the process at `i` was found before it and does not wait any more.
spec fn after_parent(ps: Seq<ProcessText>, out: Seq<u32>, stack: Seq<u32>, i: int) -> bool {
    exists|j: int|
        0 <= j < i && parent_of(ps, out[i]) == Some(#[trigger] out[j]) && !stack.contains(out[j])
}

/// Everything but the root was found after its parent.
spec fn all_after_parent(ps: Seq<ProcessText>, out: Seq<u32>, stack: Seq<u32>) -> bool {
    forall|i: int| 0 < i < out.len() ==> #[trigger] after_parent(ps, out, stack, i)
}

/// The children of what does not wait were found.
spec fn children_found(ps: Seq<ProcessText>, out: Seq<u32>, stack: Seq<u32>) -> bool {
    forall|k: int, pid: u32|
        0 <= k < out.len() && !stack.contains(#[trigger] out[k]) && #[trigger] parent_of(ps, pid)
            == Some(out[k]) ==> out.contains(pid)
}

/// What holds while the tree is walked: `out` is what was found, and `stack` those of it
/// whose children were not looked at yet.
#[verifier::opaque]
spec fn walking(ps: Seq<ProcessText>, root: u32, out: Seq<u32>, stack: Seq<u32>) -> bool {
    &&& found_once(root, out, stack)
    &&& all_descend(ps, root, out)
    &&& all_after_parent(ps, out, stack)
    &&& children_found(ps, out, stack)
}

/// The children of a process that waits were not found before.
proof fn lemma_children_new(
    ps: Seq<ProcessText>,
    root: u32,
    out: Seq<u32>,
    stack: Seq<u32>,
    p: u32,
)
    requires
        distinct(ps),
        !own_ancestor(ps, root),
        found_once(root, out, stack),
        all_descend(ps, root, out),
        all_after_parent(ps, out, stack),
        stack.contains(p),
    ensures
        forall|i: int|
            0 <= i < children(ps, p, ps.len() as int).len() ==> !out.contains(
                #[trigger] children(ps, p, ps.len() as int)[i],
            ),
{
    let kids = children(ps, p, ps.len() as int);
    lemma_children(ps, p, ps.len() as int);
    let w = choose|k: int| 0 <= k < stack.len() && stack[k] == p;
    assert(out.contains(stack[w]));
    let at = choose|k: int| 0 <= k < out.len() && out[k] == p;
    assert(descends(ps, out[at], root));
    let back = choose|m: nat| #[trigger] ancestor(ps, p, m) == Some(root);
    assert forall|i: int| 0 <= i < kids.len() implies !out.contains(#[trigger] kids[i]) by {
        let kid = kids[i];
        assert(parent_of(ps, kid) == Some(p));
        if out.contains(kid) {
            let k = choose|k: int| 0 <= k < out.len() && out[k] == kid;
            if k == 0 {
                assert(ancestor(ps, root, (back + 1) as nat) == Some(root));
            } else {
                assert(after_parent(ps, out, stack, k));
            }
        }
    }
}

proof fn lemma_step_once(root: u32, out: Seq<u32>, rest: Seq<u32>, p: u32, kids: Seq<u32>)
    requires
        found_once(root, out, rest.push(p)),
        kids.no_duplicates(),
        forall|i: int| 0 <= i < kids.len() ==> !out.contains(#[trigger] kids[i]),
    ensures
        found_once(root, out + kids, rest + kids),
{
    let stack = rest.push(p);
    let out2 = out + kids;
    let stack2 = rest + kids;
    assert forall|k: int| 0 <= k < rest.len() implies out.contains(#[trigger] rest[k]) by {
        assert(stack[k] == rest[k]);
    }
    assert forall|i: int, j: int|
        0 <= i < out2.len() && 0 <= j < out2.len() && i != j implies out2[i] != out2[j] by {
        if i < out.len() && j >= out.len() {
            assert(!out.contains(kids[j - out.len()]));
        } else if j < out.len() && i >= out.len() {
            assert(!out.contains(kids[i - out.len()]));
        }
    }
    assert forall|i: int, j: int|
        0 <= i < stack2.len() && 0 <= j < stack2.len() && i != j implies stack2[i]
        != stack2[j] by {
        if i < rest.len() && j >= rest.len() {
            assert(out.contains(rest[i]));
            assert(!out.contains(kids[j - rest.len()]));
        } else if j < rest.len() && i >= rest.len() {
            assert(out.contains(rest[j]));
            assert(!out.contains(kids[i - rest.len()]));
        } else if i < rest.len() && j < rest.len() {
            assert(stack[i] != stack[j]);
        }
    }
    assert forall|k: int| 0 <= k < stack2.len() implies out2.contains(#[trigger] stack2[k]) by {
        if k < rest.len() {
            assert(out.contains(rest[k]));
            let m = choose|m: int| 0 <= m < out.len() && out[m] == rest[k];
            assert(out2[m] == rest[k]);
        } else {
            assert(out2[out.len() + (k - rest.len())] == stack2[k]);
        }
    }
}

/// What was found and did not wait before a step does not wait after it; the process whose
/// children were found does not wait either.
proof fn lemma_step_waits(root: u32, out: Seq<u32>, rest: Seq<u32>, p: u32, kids: Seq<u32>)
    requires
        found_once(root, out, rest.push(p)),
        forall|i: int| 0 <= i < kids.len() ==> !out.contains(#[trigger] kids[i]),
    ensures
        forall|k: int|
            0 <= k < out.len() ==> ((rest + kids).contains(#[trigger] out[k]) <==> rest.push(
                p,
            ).contains(out[k]) && out[k] != p),
{
    let stack = rest.push(p);
    let stack2 = rest + kids;
    assert(stack[rest.len() as int] == p);
    assert forall|k: int| 0 <= k < out.len() implies (stack2.contains(#[trigger] out[k])
        <==> stack.contains(out[k]) && out[k] != p) by {
        if stack2.contains(out[k]) {
            let m = choose|m: int| 0 <= m < stack2.len() && stack2[m] == out[k];
            if m < rest.len() {
                assert(stack[m] == out[k]);
                assert(stack[m] != stack[rest.len() as int]);
            } else {
                assert(!out.contains(kids[m - rest.len()]));
            }
        }
        if stack.contains(out[k]) && out[k] != p {
            let m = choose|m: int| 0 <= m < stack.len() && stack[m] == out[k];
            assert(stack2[m] == out[k]);
        }
    }
}

proof fn lemma_step_descend(
    ps: Seq<ProcessText>,
    root: u32,
    out: Seq<u32>,
    p: u32,
    kids: Seq<u32>,
)
    requires
        all_descend(ps, root, out),
        out.contains(p),
        forall|i: int| 0 <= i < kids.len() ==> parent_of(ps, #[trigger] kids[i]) == Some(p),
    ensures
        all_descend(ps, root, out + kids),
{
    let out2 = out + kids;
    let at = choose|k: int| 0 <= k < out.len() && out[k] == p;
    assert(descends(ps, out[at], root));
    let back = choose|m: nat| #[trigger] ancestor(ps, p, m) == Some(root);
    assert forall|k: int| 0 <= k < out2.len() implies descends(ps, #[trigger] out2[k], root) by {
        if k < out.len() {
            assert(descends(ps, out[k], root));
        } else {
            let kid = kids[k - out.len()];
            assert(parent_of(ps, kid) == Some(p));
            assert(ancestor(ps, kid, (back + 1) as nat) == Some(root));
        }
    }
}

proof fn lemma_step_after_parent(
    ps: Seq<ProcessText>,
    root: u32,
    out: Seq<u32>,
    rest: Seq<u32>,
    p: u32,
    kids: Seq<u32>,
)
    requires
        found_once(root, out, rest.push(p)),
        all_after_parent(ps, out, rest.push(p)),
        forall|i: int| 0 <= i < kids.len() ==> !out.contains(#[trigger] kids[i]),
        forall|i: int| 0 <= i < kids.len() ==> parent_of(ps, #[trigger] kids[i]) == Some(p),
    ensures
        all_after_parent(ps, out + kids, rest + kids),
{
    let stack = rest.push(p);
    let out2 = out + kids;
    let stack2 = rest + kids;
    lemma_step_waits(root, out, rest, p, kids);
    assert(stack[rest.len() as int] == p);
    assert(out.contains(stack[rest.len() as int]));
    let at = choose|k: int| 0 <= k < out.len() && out[k] == p;
    assert forall|i: int| 0 < i < out2.len() implies #[trigger] after_parent(
        ps,
        out2,
        stack2,
        i,
    ) by {
        if i < out.len() {
            assert(after_parent(ps, out, stack, i));
            let j = choose|j: int|
                0 <= j < i && parent_of(ps, out[i]) == Some(#[trigger] out[j]) && !stack.contains(
                    out[j],
                );
            assert(out2[j] == out[j] && out2[i] == out[i]);
            assert(!stack2.contains(out2[j]));
        } else {
            assert(out2[i] == kids[i - out.len()]);
            assert(out2[at] == out[at]);
            assert(!stack2.contains(out2[at]));
        }
    }
}

proof fn lemma_step_children_found(
    ps: Seq<ProcessText>,
    root: u32,
    out: Seq<u32>,
    rest: Seq<u32>,
    p: u32,
    kids: Seq<u32>,
)
    requires
        found_once(root, out, rest.push(p)),
        children_found(ps, out, rest.push(p)),
        forall|i: int| 0 <= i < kids.len() ==> !out.contains(#[trigger] kids[i]),
        forall|pid: u32| #[trigger] parent_of(ps, pid) == Some(p) ==> kids.contains(pid),
    ensures
        children_found(ps, out + kids, rest + kids),
{
    let stack = rest.push(p);
    let out2 = out + kids;
    let stack2 = rest + kids;
    lemma_step_waits(root, out, rest, p, kids);
    assert forall|k: int, pid: u32|
        0 <= k < out2.len() && !stack2.contains(#[trigger] out2[k]) && #[trigger] parent_of(ps, pid)
            == Some(out2[k]) implies out2.contains(pid) by {
        if k < out.len() {
            assert(out2[k] == out[k]);
            if out[k] == p {
                assert(kids.contains(pid));
                let m = choose|m: int| 0 <= m < kids.len() && kids[m] == pid;
                assert(out2[out.len() + m] == pid);
            } else {
                assert(!stack.contains(out[k]));
                assert(out.contains(pid));
                let m = choose|m: int| 0 <= m < out.len() && out[m] == pid;
                assert(out2[m] == pid);
            }
        } else {
            assert(stack2[rest.len() + (k - out.len())] == out2[k]);
            assert(stack2.contains(out2[k]));
        }
    }
}

/// One step of the walk: the children of a process that was waiting are found, and wait in
/// their turn.
proof fn lemma_step(ps: Seq<ProcessText>, root: u32, out: Seq<u32>, rest: Seq<u32>, p: u32)
    requires
        distinct(ps),
        !own_ancestor(ps, root),
        walking(ps, root, out, rest.push(p)),
    ensures
        walking(
            ps,
            root,
            out + children(ps, p, ps.len() as int),
            rest + children(ps, p, ps.len() as int),
        ),
{
    reveal(walking);
    let kids = children(ps, p, ps.len() as int);
    let stack = rest.push(p);
    lemma_children(ps, p, ps.len() as int);
    assert(stack[rest.len() as int] == p);
    assert(out.contains(stack[rest.len() as int]));
    lemma_children_new(ps, root, out, stack, p);
    assert forall|pid: u32| #[trigger] parent_of(ps, pid) == Some(p) implies kids.contains(
        pid,
    ) by {
        lemma_has_parent(ps, pid);
    }
    lemma_step_once(root, out, rest, p, kids);
    lemma_step_descend(ps, root, out, p, kids);
    lemma_step_after_parent(ps, root, out, rest, p, kids);
    lemma_step_children_found(ps, root, out, rest, p, kids);
}

/// What was found is no more than the root and the processes.
proof fn lemma_walking_bound(ps: Seq<ProcessText>, root: u32, out: Seq<u32>, stack: Seq<u32>)
    requires
        walking(ps, root, out, stack),
    ensures
        out.len() <= ps.len() + 1,
        stack.len() <= out.len(),
{
    reveal(walking);
    let found = out.skip(1);
    assert forall|k: int| 0 <= k < found.len() implies parent_of(
        ps,
        #[trigger] found[k],
    ) is Some by {
        assert(after_parent(ps, out, stack, k + 1));
    }
    lemma_no_more_than(ps, found);
    out.unique_seq_to_set();
    stack.unique_seq_to_set();
    assert forall|pid: u32| stack.to_set().contains(pid) implies out.to_set().contains(pid) by {
        let k = choose|k: int| 0 <= k < stack.len() && stack[k] == pid;
        assert(out.contains(stack[k]));
    }
    vstd::set_lib::lemma_len_subset(stack.to_set(), out.to_set());
}

/// When nothing waits any more, what was found is the tree.
proof fn lemma_walked(ps: Seq<ProcessText>, root: u32, out: Seq<u32>)
    requires
        walking(ps, root, out, Seq::<u32>::empty()),
    ensures
        is_tree(ps, root, out),
{
    reveal(walking);
    let none = Seq::<u32>::empty();
    assert forall|pid: u32| #[trigger] out.contains(pid) <==> descends(ps, pid, root) by {
        if out.contains(pid) {
            let k = choose|k: int| 0 <= k < out.len() && out[k] == pid;
            assert(descends(ps, out[k], root));
        }
        if descends(ps, pid, root) {
            let n = choose|n: nat| #[trigger] ancestor(ps, pid, n) == Some(root);
            lemma_found(ps, root, out, pid, n);
        }
    }
    assert forall|i: int| 0 < i < out.len() implies exists|j: int|
        0 <= j < i && parent_of(ps, #[trigger] out[i]) == Some(#[trigger] out[j]) by {
        assert(after_parent(ps, out, none, i));
    }
}

proof fn lemma_found(ps: Seq<ProcessText>, root: u32, out: Seq<u32>, pid: u32, n: nat)
    requires
        walking(ps, root, out, Seq::<u32>::empty()),
        ancestor(ps, pid, n) == Some(root),
    ensures
        out.contains(pid),
    decreases n,
{
    reveal(walking);
    if n == 0 {
        assert(out[0] == pid);
    } else {
        let parent = parent_of(ps, pid)->0;
        lemma_found(ps, root, out, parent, (n - 1) as nat);
        let k = choose|k: int| 0 <= k < out.len() && out[k] == parent;
        assert(parent_of(ps, pid) == Some(out[k]));
    }
}

/// The root and all its descendants, each after its parent. The processes are those of one
/// look at the system, and the root is not its own ancestor.
pub fn collect_tree(processes: &Vec<ProcessInfo>, root: u32) -> (tree: Vec<u32>)
    requires
        distinct(process_texts(processes@)),
        !own_ancestor(process_texts(processes@), root),
    ensures
        is_tree(process_texts(processes@), root, tree@),
{
    let ghost ps = process_texts(processes@);
    let mut out: Vec<u32> = Vec::new();
    let mut stack: Vec<u32> = Vec::new();
    out.push(root);
    stack.push(root);
    proof {
        assert(ancestor(ps, root, 0) == Some(root));
        assert(descends(ps, out@[0], root));
        assert(stack@[0] == root);
        assert(out@[0] == root);
        assert(out@.contains(stack@[0]));
        reveal(walking);
        lemma_walking_bound(ps, root, out@, stack@);
    }
    while stack.len() > 0
        invariant
            ps == process_texts(processes@),
            distinct(ps),
            !own_ancestor(ps, root),
            walking(ps, root, out@, stack@),
            stack@.len() <= out@.len() <= ps.len() + 1,
        decreases ps.len() + 1 - (out@.len() - stack@.len()),
    {
        let ghost before = out@;
        let ghost waiting = stack@;
        let ghost rest = stack@.drop_last();
        let p = stack[stack.len() - 1];
        stack.pop();
        assert(rest.push(p) =~= waiting);
        assert(stack@ =~= rest);
        let mut i: usize = 0;
        assert(out@ =~= before + children(ps, p, 0));
        assert(stack@ =~= rest + children(ps, p, 0));
        while i < processes.len()
            invariant
                i <= processes@.len(),
                ps == process_texts(processes@),
                out@ == before + children(ps, p, i as int),
                stack@ == rest + children(ps, p, i as int),
            decreases processes@.len() - i,
        {
            assert(ps[i as int] == processes@[i as int]@);
            if let Some(parent) = processes[i].parent {
                if parent == p {
                    out.push(processes[i].pid);
                    stack.push(processes[i].pid);
                }
            }
            i = i + 1;
            assert(out@ =~= before + children(ps, p, i as int));
            assert(stack@ =~= rest + children(ps, p, i as int));
        }
        proof {
            lemma_step(ps, root, before, rest, p);
            lemma_walking_bound(ps, root, out@, stack@);
        }
    }
    proof {
        assert(stack@ =~= Seq::<u32>::empty());
        lemma_walked(ps, root, out@);
    }
    out
}

/// A process that is its own ancestor is so within as many generations as there are
/// processes.
proof fn lemma_short_cycle(ps: Seq<ProcessText>, pid: u32, n: nat) -> (m: nat)
    requires
        n > 0,
        ancestor(ps, pid, n) == Some(pid),
    ensures
        0 < m <= ps.len(),
        ancestor(ps, pid, m) == Some(pid),
    decreases n,
{
    if n <= ps.len() {
        n
    } else {
        let line = Seq::new(n, |i: int| ancestor(ps, pid, i as nat)->0);
        assert forall|i: int| 0 <= i < n implies ancestor(ps, pid, i as nat) is Some && parent_of(
            ps,
            #[trigger] line[i],
        ) is Some by {
            lemma_ancestor_step(ps, pid, i as nat, n);
        }
        if line.no_duplicates() {
            lemma_no_more_than(ps, line);
        }
        let (i, j) = choose|i: int, j: int|
            0 <= i < n && 0 <= j < n && i != j && line[i] == line[j];
        let (a, b) = if i < j {
            (i as nat, j as nat)
        } else {
            (j as nat, i as nat)
        };
        assert(line[a as int] == line[b as int]);
        lemma_ancestor_step(ps, pid, a, n);
        lemma_ancestor_step(ps, pid, b, n);
        lemma_ancestor_add(ps, pid, b, (n - b) as nat);
        lemma_ancestor_add(ps, pid, a, (n - b) as nat);
        lemma_short_cycle(ps, pid, (a + (n - b)) as nat)
    }
}

/// On the way to an ancestor, every process has a parent.
proof fn lemma_ancestor_step(ps: Seq<ProcessText>, pid: u32, i: nat, n: nat)
    requires
        i < n,
        ancestor(ps, pid, n) is Some,
    ensures
        ancestor(ps, pid, i) is Some,
        parent_of(ps, ancestor(ps, pid, i)->0) is Some,
    decreases i,
{
    if i > 0 {
        let parent = parent_of(ps, pid)->0;
        lemma_ancestor_step(ps, parent, (i - 1) as nat, (n - 1) as nat);
    }
}

/// Whether a process is an ancestor of itself.
pub fn is_own_ancestor(processes: &Vec<ProcessInfo>, pid: u32) -> (r: bool)
    ensures
        r == own_ancestor(process_texts(processes@), pid),
{
    let ghost ps = process_texts(processes@);
    let mut current: u32 = pid;
    let mut steps: usize = 0;
    while steps < processes.len()
        invariant
            steps <= processes@.len(),
            ps == process_texts(processes@),
            ancestor(ps, pid, steps as nat) == Some(current),
            forall|m: nat| 0 < m <= steps ==> #[trigger] ancestor(ps, pid, m) != Some(pid),
        decreases processes@.len() - steps,
    {
        let parent = match find_process(processes, current) {
            Some(i) => processes[i].parent,
            None => None,
        };
        assert(parent == parent_of(ps, current));
        match parent {
            Some(next) => {
                proof {
                    lemma_ancestor_add(ps, pid, steps as nat, 1);
                    assert(ancestor(ps, current, 1) == ancestor(ps, next, 0));
                }
                if next == pid {
                    assert(ancestor(ps, pid, (steps + 1) as nat) == Some(pid));
                    return true;
                }
                current = next;
                steps = steps + 1;
            },
            None => {
                proof {
                    assert forall|m: nat| m > 0 implies #[trigger] ancestor(ps, pid, m) != Some(
                        pid,
                    ) by {
                        if m > steps {
                            lemma_ancestor_add(ps, pid, steps as nat, (m - steps) as nat);
                        }
                    }
                }
                return false;
            },
        }
    }
    proof {
        if own_ancestor(ps, pid) {
            let n = choose|n: nat| n > 0 && #[trigger] ancestor(ps, pid, n) == Some(pid);
            let m = lemma_short_cycle(ps, pid, n);
        }
    }
    false
}

/// Whether no two processes have the same number.
pub fn are_distinct(processes: &Vec<ProcessInfo>) -> (r: bool)
    ensures
        r == distinct(process_texts(processes@)),
{
    let ghost ps = process_texts(processes@);
    let mut i: usize = 0;
    while i < processes.len()
        invariant
            i <= processes@.len(),
            ps == process_texts(processes@),
            forall|a: int, b: int|
                0 <= a < i && 0 <= b < ps.len() && (#[trigger] ps[a]).pid == (#[trigger] ps[b]).pid
                    ==> a == b,
        decreases processes@.len() - i,
    {
        let mut j: usize = 0;
        while j < processes.len()
            invariant
                i < processes@.len(),
                j <= processes@.len(),
                ps == process_texts(processes@),
                forall|b: int| 0 <= b < j && ps[i as int].pid == (#[trigger] ps[b]).pid ==> i == b,
            decreases processes@.len() - j,
        {
            assert(ps[i as int].pid == processes@[i as int].pid);
            assert(ps[j as int].pid == processes@[j as int].pid);
            if i != j && processes[i].pid == processes[j].pid {
                return false;
            }
            j = j + 1;
        }
        i = i + 1;
    }
    true
}

/// The root and all its descendants, each after its parent. `None` if two processes have the
/// same number, or if the root is its own ancestor: such processes form no tree.
pub fn try_collect_tree(processes: &Vec<ProcessInfo>, root: u32) -> (r: Option<Vec<u32>>)
    ensures
        r is None <==> !distinct(process_texts(processes@)) || own_ancestor(
            process_texts(processes@),
            root,
        ),
        r matches Some(tree) ==> is_tree(process_texts(processes@), root, tree@),
{
    if are_distinct(processes) && !is_own_ancestor(processes, root) {
        Some(collect_tree(processes, root))
    } else {
        None
    }
}

/// The tree of a process within a tree is part of it.
pub proof fn law_tree_holds_trees(
    ps: Seq<ProcessText>,
    root: u32,
    tree: Seq<u32>,
    inner: u32,
    subtree: Seq<u32>,
)
    requires
        is_tree(ps, root, tree),
        is_tree(ps, inner, subtree),
        tree.contains(inner),
    ensures
        forall|pid: u32| #[trigger] subtree.contains(pid) ==> tree.contains(pid),
{
    assert forall|pid: u32| #[trigger] subtree.contains(pid) implies tree.contains(pid) by {
        assert(descends(ps, pid, inner));
        assert(descends(ps, inner, root));
        let a = choose|n: nat| #[trigger] ancestor(ps, pid, n) == Some(inner);
        let b = choose|n: nat| #[trigger] ancestor(ps, inner, n) == Some(root);
        lemma_ancestor_add(ps, pid, a, b);
        assert(ancestor(ps, pid, a + b) == Some(root));
        assert(descends(ps, pid, root));
    }
}

// ---- the root ------------------------------------------------------------------------------

/// Which process is watched, or why none is.
#[derive(Debug, Clone, Copy, PartialEq, Eq, Structural)]
pub enum RootChoice {
    Found(u32),
    NoSuchPid(u32),
    NoMatch,
    NoTarget,
}

/// Whether the command line of a process holds the wanted text, where the watcher itself,
/// told by its number or by its name, does not count.
pub open spec fn is_match(p: ProcessText, wanted: Seq<char>, me: u32) -> bool {
    let line = joined(p.cmd, " "@);
    p.pid != me && occurs(line, wanted) && !occurs(line, "leakwatch"@)
}

/// The first process from `i` on whose command line holds the wanted text.
pub open spec fn first_match(ps: Seq<ProcessText>, wanted: Seq<char>, me: u32, i: int) -> Option<
    u32,
>
    decreases ps.len() - i,
{
    if i >= ps.len() {
        None
    } else if is_match(ps[i], wanted, me) {
        Some(ps[i].pid)
    } else {
        first_match(ps, wanted, me, i + 1)
    }
}

/// The process to watch: the one of the given number, or else the first one whose command
/// line holds the wanted text.
pub open spec fn chosen_root(
    ps: Seq<ProcessText>,
    pid: Option<u32>,
    wanted: Option<Seq<char>>,
    me: u32,
) -> RootChoice {
    match (pid, wanted) {
        (Some(pid), _) => if process_of(ps, pid) is Some {
            RootChoice::Found(pid)
        } else {
            RootChoice::NoSuchPid(pid)
        },
        (None, Some(wanted)) => match first_match(ps, wanted, me, 0) {
            Some(pid) => RootChoice::Found(pid),
            None => RootChoice::NoMatch,
        },
        (None, None) => RootChoice::NoTarget,
    }
}

/// Picks the process to watch, where `me` is the number of the watcher.
pub fn find_root(
    processes: &Vec<ProcessInfo>,
    pid: Option<u32>,
    wanted: Option<&str>,
    me: u32,
) -> (r: RootChoice)
    ensures
        r == chosen_root(process_texts(processes@), pid, opt_str_text(wanted), me),
{
    if let Some(pid) = pid {
        return match find_process(processes, pid) {
            Some(_) => RootChoice::Found(pid),
            None => RootChoice::NoSuchPid(pid),
        };
    }
    match wanted {
        Some(text) => {
            let ghost ps = process_texts(processes@);
            let mut i: usize = 0;
            while i < processes.len()
                invariant
                    i <= processes@.len(),
                    pid is None,
                    wanted == Some(text),
                    ps == process_texts(processes@),
                    first_match(ps, text@, me, 0) == first_match(ps, text@, me, i as int),
                decreases processes@.len() - i,
            {
                assert(ps[i as int] == processes@[i as int]@);
                if processes[i].pid != me {
                    let line = join(&processes[i].cmd, " ");
                    if contains(&line, text) && !contains(&line, "leakwatch") {
                        return RootChoice::Found(processes[i].pid);
                    }
                }
                i = i + 1;
            }
            RootChoice::NoMatch
        },
        None => RootChoice::NoTarget,
    }
}

/// How `Debug` for `str` shows a text: in quotes, with escapes.
pub uninterp spec fn debug_form(s: Seq<char>) -> Seq<char>;

/// `format!` with `{:?}` on a string: the text in quotes, with escapes, which the text alone
/// decides.
#[verifier::external_body]
fn quoted(s: &str) -> (r: String)
    ensures
        r@ == debug_form(s@),
{
    format!("{s:?}")
}

/// What is said where no process can be watched; nothing where one was found.
pub open spec fn root_problem(choice: RootChoice, quoted_match: Seq<char>) -> Option<Seq<char>> {
    match choice {
        RootChoice::Found(_) => None,
        RootChoice::NoSuchPid(pid) => Some(
            "leakwatch: no process with pid "@ + decimal(pid as nat),
        ),
        RootChoice::NoMatch => Some("leakwatch: no process matching "@ + quoted_match),
        RootChoice::NoTarget => Some("leakwatch: pass --pid or --match"@),
    }
}

/// What is said where no process can be watched, with the wanted text already in quotes.
pub fn root_error_with(choice: RootChoice, quoted_match: &str) -> (r: Option<String>)
    ensures
        opt_text(r) == root_problem(choice, quoted_match@),
{
    match choice {
        RootChoice::Found(_) => None,
        RootChoice::NoSuchPid(pid) => {
            let mut r = String::from_str("leakwatch: no process with pid ");
            r.append(&decimal_text(pid as u128));
            Some(r)
        },
        RootChoice::NoMatch => {
            let mut r = String::from_str("leakwatch: no process matching ");
            r.append(quoted_match);
            Some(r)
        },
        RootChoice::NoTarget => Some(String::from_str("leakwatch: pass --pid or --match")),
    }
}

/// What is said where no process can be watched, given the text that was wanted.
pub fn root_error(choice: RootChoice, wanted: &str) -> (r: Option<String>)
    ensures
        opt_text(r) == root_problem(choice, debug_form(wanted@)),
{
    root_error_with(choice, &quoted(wanted))
}

/// The process to watch is one that runs; it is never the watcher where it was found by its
/// command line.
pub proof fn law_chosen_root(
    ps: Seq<ProcessText>,
    pid: Option<u32>,
    wanted: Option<Seq<char>>,
    me: u32,
)
    ensures
        chosen_root(ps, pid, wanted, me) matches RootChoice::Found(root) ==> {
            &&& exists|i: int| 0 <= i < ps.len() && (#[trigger] ps[i]).pid == root
            &&& pid matches Some(p) ==> root == p
            &&& pid is None ==> root != me
        },
{
    if let Some(p) = pid {
        lemma_process_at(ps, p, 0);
        if process_at(ps, p, 0) < ps.len() {
            assert(ps[process_at(ps, p, 0)].pid == p);
        }
    } else if let Some(w) = wanted {
        lemma_first_match(ps, w, me, 0);
    }
}

proof fn lemma_first_match(ps: Seq<ProcessText>, wanted: Seq<char>, me: u32, i: int)
    requires
        0 <= i <= ps.len(),
    ensures
        first_match(ps, wanted, me, i) matches Some(root) ==> root != me && exists|k: int|
            0 <= k < ps.len() && (#[trigger] ps[k]).pid == root,
    decreases ps.len() - i,
{
    if i < ps.len() {
        if is_match(ps[i], wanted, me) {
            assert(ps[i].pid != me);
        } else {
            lemma_first_match(ps, wanted, me, i + 1);
        }
    }
}

// ---- what these are, told otherwise --------------------------------------------------------

/// The last component of a path holds neither `/` nor `\`; what stands before it in the path, if
/// anything does, ends in one of them.
pub proof fn law_base(s: Seq<char>)
    ensures
        base_of(s).len() <= s.len(),
        base_of(s) == s.skip(s.len() - base_of(s).len()),
        forall|k: int|
            0 <= k < base_of(s).len() ==> #[trigger] base_of(s)[k] != '/' && base_of(s)[k] != '\\',
        base_of(s).len() < s.len() ==> {
            let c = s[s.len() - base_of(s).len() - 1];
            c == '/' || c == '\\'
        },
    decreases s.len(),
{
    if s.len() > 0 && !separator(s.last()) {
        let front = s.drop_last();
        law_base(front);
        let n = front.len() - base_of(front).len();
        assert(base_of(s) =~= s.skip(n));
    } else {
        assert(base_of(s) =~= s.skip(s.len() as int));
    }
}

/// Whether a token names a script, told by its characters: it is no flag, and it ends in `.py`,
/// or it holds a slash, starts neither with `/dev` nor with `/tmp`, and ends in no separator.
pub open spec fn is_script_token(token: Seq<char>) -> bool {
    &&& token.len() > 0 && token[0] != '-'
    &&& {
        ||| token.len() >= 3 && token.skip(token.len() - 3) == seq!['.', 'p', 'y']
        ||| {
            &&& exists|k: int| 0 <= k < token.len() && #[trigger] token[k] == '/'
            &&& !(token.len() >= 4 && token.take(4) == seq!['/', 'd', 'e', 'v'])
            &&& !(token.len() >= 4 && token.take(4) == seq!['/', 't', 'm', 'p'])
            &&& token.last() != '/' && token.last() != '\\'
        }
    }
}

/// Which tokens of a command line name a script.
pub proof fn law_names_script(token: Seq<char>)
    ensures
        names_script(token) <==> is_script_token(token),
{
    reveal_strlit(".py");
    reveal_strlit("/dev");
    reveal_strlit("/tmp");
    let n = token.len() as int;
    assert(".py"@ =~= seq!['.', 'p', 'y']);
    assert("/dev"@ =~= seq!['/', 'd', 'e', 'v']);
    assert("/tmp"@ =~= seq!['/', 't', 'm', 'p']);
    if n >= 3 {
        assert(token.subrange(n - 3, n) =~= token.skip(n - 3));
    }
    if n >= 4 {
        assert(token.subrange(0, 4) =~= token.take(4));
    }
    law_base(token);
    if n > 0 {
        let b = base_of(token);
        if b.len() > 0 {
            assert(b[b.len() - 1] == token[n - 1]);
        }
    }
    if token.contains('/') {
        let k = choose|k: int| 0 <= k < token.len() && token[k] == '/';
        assert(token[k] == '/');
    }
}

/// Where the process has a command line, its label is its program alone if no token behind the
/// program names a script; and otherwise the program, a colon, and the last component of the
/// first token that does. Without a command line it is the name of the process.
pub proof fn law_label(p: ProcessText, k: int)
    ensures
        p.cmd.len() == 0 ==> label_of(p) == p.name,
        p.cmd.len() > 0 && (forall|i: int|
            1 <= i < p.cmd.len() ==> !is_script_token(#[trigger] p.cmd[i])) ==> label_of(p)
            == base_of(p.cmd[0]),
        1 <= k < p.cmd.len() && is_script_token(p.cmd[k]) && (forall|i: int|
            1 <= i < k ==> !is_script_token(#[trigger] p.cmd[i])) ==> label_of(p) == base_of(
            p.cmd[0],
        ) + seq![':'] + base_of(p.cmd[k]),
{
    reveal_strlit(":");
    assert(":"@ =~= seq![':']);
    if p.cmd.len() > 0 {
        assert forall|i: int| 0 <= i < p.cmd.len() implies names_script(#[trigger] p.cmd[i])
            == is_script_token(p.cmd[i]) by {
            law_names_script(p.cmd[i]);
        }
        lemma_label_from(base_of(p.cmd[0]), p.cmd, 1, k);
    }
}

proof fn lemma_label_from(exe: Seq<char>, cmd: Seq<Seq<char>>, i: int, k: int)
    requires
        0 <= i <= cmd.len(),
    ensures
        (forall|j: int| i <= j < cmd.len() ==> !names_script(#[trigger] cmd[j])) ==> label_from(
            exe,
            cmd,
            i,
        ) == exe,
        i <= k < cmd.len() && names_script(cmd[k]) && (forall|j: int|
            i <= j < k ==> !names_script(#[trigger] cmd[j])) ==> label_from(exe, cmd, i) == exe
            + ":"@ + base_of(cmd[k]),
    decreases cmd.len() - i,
{
    if i < cmd.len() && !names_script(cmd[i]) {
        lemma_label_from(exe, cmd, i + 1, k);
    }
}

/// The label that is given for a number is that of the first process of this number, and `gone`
/// where there is none.
pub proof fn law_label_at(ps: Seq<ProcessText>, pid: u32, i: int)
    ensures
        0 <= i < ps.len() && ps[i].pid == pid && (forall|k: int|
            0 <= k < i ==> (#[trigger] ps[k]).pid != pid) ==> label_at(ps, pid) == label_of(ps[i])
            && process_of(ps, pid) == Some(ps[i]),
        (forall|k: int| 0 <= k < ps.len() ==> (#[trigger] ps[k]).pid != pid) ==> {
            &&& label_at(ps, pid) == seq!['g', 'o', 'n', 'e']
            &&& process_of(ps, pid) is None
        },
{
    reveal_strlit("gone");
    assert("gone"@ =~= seq!['g', 'o', 'n', 'e']);
    lemma_process_at(ps, pid, 0);
    let at = process_at(ps, pid, 0);
    if at < ps.len() {
        assert(ps[at].pid == pid);
    }
}

/// Whether a process is meant by a text: it is not the watcher, and its command line, joined by
/// spaces, holds the text somewhere and `leakwatch` nowhere.
pub open spec fn is_meant(p: ProcessText, wanted: Seq<char>, me: u32) -> bool {
    let line = joined(p.cmd, seq![' ']);
    &&& p.pid != me
    &&& exists|at: int|
        0 <= at && at + wanted.len() <= line.len() && #[trigger] line.subrange(
            at,
            at + wanted.len(),
        ) == wanted
    &&& forall|at: int|
        0 <= at && at + 9 <= line.len() ==> #[trigger] line.subrange(at, at + 9) != seq![
            'l',
            'e',
            'a',
            'k',
            'w',
            'a',
            't',
            'c',
            'h',
        ]
}

/// Without a number, the first process is watched that is meant by the text; and there is no
/// match just where none is meant.
pub proof fn law_root_by_command_line(
    ps: Seq<ProcessText>,
    wanted: Seq<char>,
    me: u32,
    i: int,
)
    ensures
        0 <= i < ps.len() && is_meant(ps[i], wanted, me) && (forall|k: int|
            0 <= k < i ==> !is_meant(#[trigger] ps[k], wanted, me)) ==> chosen_root(
            ps,
            None,
            Some(wanted),
            me,
        ) == RootChoice::Found(ps[i].pid),
        (forall|k: int| 0 <= k < ps.len() ==> !is_meant(#[trigger] ps[k], wanted, me))
            <==> chosen_root(ps, None, Some(wanted), me) == RootChoice::NoMatch,
{
    assert forall|k: int| 0 <= k < ps.len() implies is_match(#[trigger] ps[k], wanted, me)
        == is_meant(ps[k], wanted, me) by {
        lemma_is_meant(ps[k], wanted, me);
    }
    lemma_first_match_is(ps, wanted, me, 0, i);
}

proof fn lemma_is_meant(p: ProcessText, wanted: Seq<char>, me: u32)
    ensures
        is_match(p, wanted, me) == is_meant(p, wanted, me),
{
    reveal_strlit(" ");
    reveal_strlit("leakwatch");
    assert(" "@ =~= seq![' ']);
    let own = seq!['l', 'e', 'a', 'k', 'w', 'a', 't', 'c', 'h'];
    assert("leakwatch"@ =~= own);
    let line = joined(p.cmd, seq![' ']);
    if occurs(line, wanted) {
        let at = choose|at: int| stands_at(line, wanted, at);
        assert(line.subrange(at, at + wanted.len()) == wanted);
    }
    if exists|at: int|
        0 <= at && at + wanted.len() <= line.len() && #[trigger] line.subrange(
            at,
            at + wanted.len(),
        ) == wanted {
        let at = choose|at: int|
            0 <= at && at + wanted.len() <= line.len() && #[trigger] line.subrange(
                at,
                at + wanted.len(),
            ) == wanted;
        assert(stands_at(line, wanted, at));
    }
    if occurs(line, own) {
        let at = choose|at: int| stands_at(line, own, at);
        assert(line.subrange(at, at + 9) == own);
    }
    if exists|at: int|
        0 <= at && at + 9 <= line.len() && #[trigger] line.subrange(at, at + 9) == own {
        let at = choose|at: int|
            0 <= at && at + 9 <= line.len() && #[trigger] line.subrange(at, at + 9) == own;
        assert(stands_at(line, own, at));
    }
}

proof fn lemma_first_match_is(
    ps: Seq<ProcessText>,
    wanted: Seq<char>,
    me: u32,
    from: int,
    i: int,
)
    requires
        0 <= from <= ps.len(),
    ensures
        from <= i < ps.len() && is_match(ps[i], wanted, me) && (forall|k: int|
            from <= k < i ==> !is_match(#[trigger] ps[k], wanted, me)) ==> first_match(
            ps,
            wanted,
            me,
            from,
        ) == Some(ps[i].pid),
        (forall|k: int| from <= k < ps.len() ==> !is_match(#[trigger] ps[k], wanted, me))
            <==> first_match(ps, wanted, me, from) is None,
    decreases ps.len() - from,
{
    if from < ps.len() && !is_match(ps[from], wanted, me) {
        lemma_first_match_is(ps, wanted, me, from + 1, i);
    }
}

/// With a number, the process of that number is watched if there is one, whatever text is given;
/// and without a number and without a text there is no target.
pub proof fn law_root_by_number(
    ps: Seq<ProcessText>,
    pid: u32,
    wanted: Option<Seq<char>>,
    me: u32,
)
    ensures
        chosen_root(ps, Some(pid), wanted, me) == RootChoice::Found(pid) <==> exists|i: int|
            0 <= i < ps.len() && (#[trigger] ps[i]).pid == pid,
        chosen_root(ps, Some(pid), wanted, me) == RootChoice::NoSuchPid(pid) <==> forall|i: int|
            0 <= i < ps.len() ==> (#[trigger] ps[i]).pid != pid,
        chosen_root(ps, None, None, me) == RootChoice::NoTarget,
{
    lemma_process_at(ps, pid, 0);
    let at = process_at(ps, pid, 0);
    if at < ps.len() {
        assert(ps[at].pid == pid);
    }
}

/// A tree holds its root; it holds a process whose parent it holds; and each other number in it
/// is that of a process whose parent stands before it in the tree. No number stands in it twice.
pub proof fn law_tree_is_closed(
    ps: Seq<ProcessText>,
    root: u32,
    tree: Seq<u32>,
    child: int,
    at: int,
)
    requires
        distinct(ps),
        is_tree(ps, root, tree),
        0 <= child < ps.len(),
        0 < at < tree.len(),
    ensures
        tree[0] == root,
        (ps[child].parent matches Some(q) && tree.contains(q)) ==> tree.contains(ps[child].pid),
        exists|i: int, j: int|
            0 <= i < ps.len() && 0 <= j < at && (#[trigger] ps[i]).pid == tree[at] && ps[i].parent
                == Some(#[trigger] tree[j]),
        forall|a: int, b: int|
            0 <= a < b < tree.len() ==> #[trigger] tree[a] != #[trigger] tree[b],
{
    let pid = ps[child].pid;
    lemma_process_at(ps, pid, 0);
    let c = process_at(ps, pid, 0);
    assert(c == child) by {
        if c < ps.len() {
            assert(ps[c].pid == ps[child].pid);
        } else {
            assert(ps[child].pid != pid);
        }
    }
    if let Some(q) = ps[child].parent {
        if tree.contains(q) {
            assert(descends(ps, q, root));
            let n = choose|n: nat| #[trigger] ancestor(ps, q, n) == Some(root);
            assert(parent_of(ps, pid) == Some(q));
            assert(ancestor(ps, pid, n + 1) == ancestor(ps, q, n));
            assert(descends(ps, pid, root));
        }
    }
    let j = choose|j: int| 0 <= j < at && parent_of(ps, tree[at]) == Some(#[trigger] tree[j]);
    lemma_process_at(ps, tree[at], 0);
    let i = process_at(ps, tree[at], 0);
    assert(ps[i].pid == tree[at] && ps[i].parent == Some(tree[j]));
}

/// Where no process can be watched, it is said which number or which text was not found, or
/// that one of the two is to be given; where one was found, nothing is said.
pub proof fn law_root_problem(pid: u32, quoted_match: Seq<char>)
    ensures
        root_problem(RootChoice::Found(pid), quoted_match) is None,
        root_problem(RootChoice::NoSuchPid(pid), quoted_match) == Some(
            "leakwatch: no process "@ + ("with pid "@ + decimal(pid as nat)),
        ),
        root_problem(RootChoice::NoMatch, quoted_match) == Some(
            "leakwatch: no process "@ + ("matching "@ + quoted_match),
        ),
        root_problem(RootChoice::NoTarget, quoted_match) == Some(
            "leakwatch: "@ + "pass --pid or --match"@,
        ),
{
    reveal_strlit("leakwatch: no process ");
    reveal_strlit("with pid ");
    reveal_strlit("matching ");
    reveal_strlit("leakwatch: no process with pid ");
    reveal_strlit("leakwatch: no process matching ");
    reveal_strlit("leakwatch: pass --pid or --match");
    reveal_strlit("leakwatch: ");
    reveal_strlit("pass --pid or --match");
    assert("leakwatch: no process with pid "@ + decimal(pid as nat) =~= "leakwatch: no process "@ + (
    "with pid "@ + decimal(pid as nat)));
    assert("leakwatch: no process matching "@ + quoted_match =~= "leakwatch: no process "@ + (
    "matching "@ + quoted_match));
    assert("leakwatch: pass --pid or --match"@ =~= "leakwatch: "@ + "pass --pid or --match"@);
}

/// A process descends from a root where it is the root or its parent descends from it; the
/// parent is what the process itself says.
pub proof fn law_descends(ps: Seq<ProcessText>, pid: u32, root: u32)
    requires
        distinct(ps),
    ensures
        descends(ps, pid, root) <==> pid == root || exists|i: int|
            0 <= i < ps.len() && (#[trigger] ps[i]).pid == pid && (ps[i].parent matches Some(q)
                && descends(ps, q, root)),
        own_ancestor(ps, pid) <==> exists|i: int|
            0 <= i < ps.len() && (#[trigger] ps[i]).pid == pid && (ps[i].parent matches Some(q)
                && descends(ps, q, pid)),
{
    lemma_process_at(ps, pid, 0);
    let at = process_at(ps, pid, 0);
    assert(ancestor(ps, pid, 0) == Some(pid));
    if at < ps.len() {
        assert(ps[at].pid == pid);
        if let Some(q) = ps[at].parent {
            lemma_parent_descends(ps, pid, q, root);
            lemma_parent_descends(ps, pid, q, pid);
        }
    }
    if own_ancestor(ps, pid) {
        let n = choose|n: nat| n > 0 && #[trigger] ancestor(ps, pid, n) == Some(pid);
        let q = parent_of(ps, pid)->0;
        assert(ancestor(ps, q, (n - 1) as nat) == Some(pid));
        assert(descends(ps, q, pid));
        assert(ps[at].pid == pid);
    }
    if descends(ps, pid, root) && pid != root {
        let n = choose|n: nat| #[trigger] ancestor(ps, pid, n) == Some(root);
        let q = parent_of(ps, pid)->0;
        assert(n > 0);
        assert(ancestor(ps, q, (n - 1) as nat) == Some(root));
        assert(descends(ps, q, root));
        assert(ps[at].pid == pid);
    }
    if exists|i: int|
        0 <= i < ps.len() && (#[trigger] ps[i]).pid == pid && (ps[i].parent matches Some(q)
            && descends(ps, q, pid)) {
        let i = choose|i: int|
            0 <= i < ps.len() && (#[trigger] ps[i]).pid == pid && (ps[i].parent matches Some(q)
                && descends(ps, q, pid));
        assert(i == at);
    }
    if exists|i: int|
        0 <= i < ps.len() && (#[trigger] ps[i]).pid == pid && (ps[i].parent matches Some(q)
            && descends(ps, q, root)) {
        let i = choose|i: int|
            0 <= i < ps.len() && (#[trigger] ps[i]).pid == pid && (ps[i].parent matches Some(q)
                && descends(ps, q, root));
        assert(i == at);
    }
}

proof fn lemma_parent_descends(ps: Seq<ProcessText>, pid: u32, q: u32, root: u32)
    requires
        parent_of(ps, pid) == Some(q),
    ensures
        descends(ps, q, root) ==> exists|n: nat|
            n > 0 && #[trigger] ancestor(ps, pid, n) == Some(root),
{
    if descends(ps, q, root) {
        let n = choose|n: nat| #[trigger] ancestor(ps, q, n) == Some(root);
        assert(ancestor(ps, pid, n + 1) == ancestor(ps, q, n));
        assert(n + 1 > 0 && ancestor(ps, pid, n + 1) == Some(root));
    }
}

/// No two processes have the same number just where the list of their numbers holds none twice.
pub proof fn law_distinct(ps: Seq<ProcessText>)
    ensures
        distinct(ps) <==> Seq::new(ps.len(), |i: int| ps[i].pid).no_duplicates(),
{
    let numbers = Seq::new(ps.len(), |i: int| ps[i].pid);
    if numbers.no_duplicates() {
        assert forall|i: int, j: int|
            0 <= i < ps.len() && 0 <= j < ps.len() && (#[trigger] ps[i]).pid == (
            #[trigger] ps[j]).pid implies i == j by {
            assert(numbers[i] == numbers[j]);
        }
    }
    if distinct(ps) {
        assert forall|i: int, j: int| 0 <= i < j < numbers.len() implies numbers[i]
            != numbers[j] by {
            assert(ps[i].pid == numbers[i] && ps[j].pid == numbers[j]);
        }
    }
}

} // verus!
