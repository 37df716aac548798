//! The kernel's process table: which processes exist, and how they are
//! related (children, parent, links).
//!
//! The table holds each process's host handle, of any type `H` the caller
//! chooses, next to its context.

use vstd::prelude::*;
use crate::vfs::VFS;

verus! {

pub type PID = u32;

/// What the kernel knows of a process's relations.
pub struct ProcessContext {
    linked_processes: Vec<PID>,
    child_processes: Vec<PID>,
    parent_process: Option<PID>,
    process_id: PID,
}

/// The model of a `ProcessContext`.
pub struct ContextView {
    pub linked: Seq<PID>,
    pub children: Seq<PID>,
    pub parent: Option<PID>,
    pub id: PID,
}

impl View for ProcessContext {
    type V = ContextView;

    closed spec fn view(&self) -> ContextView {
        ContextView {
            linked: self.linked_processes@,
            children: self.child_processes@,
            parent: self.parent_process,
            id: self.process_id,
        }
    }
}

impl ProcessContext {
    /// The context of a process with no relations yet.
    pub fn new(process_id: PID) -> (r: ProcessContext)
        ensures
            r@ == (ContextView { linked: Seq::empty(), children: Seq::empty(), parent: None, id: process_id }),
    {
        ProcessContext { linked_processes: Vec::new(), child_processes: Vec::new(), parent_process: None, process_id }
    }

    pub fn linked_processes(&self) -> (r: &Vec<PID>)
        ensures
            r@ == self@.linked,
    {
        &self.linked_processes
    }

    pub fn child_processes(&self) -> (r: &Vec<PID>)
        ensures
            r@ == self@.children,
    {
        &self.child_processes
    }

    pub fn parent_process(&self) -> (r: Option<PID>)
        ensures
            r == self@.parent,
    {
        self.parent_process
    }

    pub fn process_id(&self) -> (r: PID)
        ensures
            r == self@.id,
    {
        self.process_id
    }
}

/// Why a process-table operation failed.
#[derive(Debug, Clone, Copy, PartialEq, Eq, Structural)]
pub enum KernalError {
    ProcessNotFound(PID),
    ProcessAlreadyLinked(PID, PID),
    ProcessNotLinked(PID),
}

/// `s` without any occurrence of `x`, the rest in order.
pub open spec fn without(s: Seq<PID>, x: PID) -> Seq<PID>
    decreases s.len(),
{
    if s.len() == 0 {
        s
    } else if s.last() == x {
        without(s.drop_last(), x)
    } else {
        without(s.drop_last(), x).push(s.last())
    }
}

fn contains_pid(s: &Vec<PID>, x: PID) -> (r: bool)
    ensures
        r == s@.contains(x),
{
    let mut i: usize = 0;
    while i < s.len()
        invariant
            0 <= i <= s.len(),
            forall|j: int| 0 <= j < i ==> s@[j] != x,
        decreases s.len() - i,
    {
        if s[i] == x {
            assert(s@[i as int] == x);
            return true;
        }
        i += 1;
    }
    false
}

fn remove_pid(s: &Vec<PID>, x: PID) -> (r: Vec<PID>)
    ensures
        r@ == without(s@, x),
{
    let mut r: Vec<PID> = Vec::new();
    let mut i: usize = 0;
    assert(s@.subrange(0, 0) =~= Seq::<PID>::empty());
    while i < s.len()
        invariant
            0 <= i <= s.len(),
            r@ == without(s@.subrange(0, i as int), x),
        decreases s.len() - i,
    {
        assert(s@.subrange(0, i + 1).drop_last() =~= s@.subrange(0, i as int));
        if s[i] != x {
            r.push(s[i]);
        }
        i += 1;
    }
    assert(s@.subrange(0, s.len() as int) =~= s@);
    r
}

struct ProcessEntry<H> {
    pid: PID,
    host: H,
    context: ProcessContext,
}

/// The model of a process table: each process's host and context, by id,
/// and the id the next process gets.
pub struct TableView<H> {
    pub hosts: Map<PID, H>,
    pub contexts: Map<PID, ContextView>,
    pub next_id: PID,
}

/// The running processes, by id.
pub struct ProcessTable<H> {
    entries: Vec<ProcessEntry<H>>,
    process_id_counter: PID,
}

/// The ids held in `s`.
spec fn holds_pid<H>(s: Seq<ProcessEntry<H>>, p: PID) -> bool {
    exists|i: int| 0 <= i < s.len() && #[trigger] s[i].pid == p
}

/// The position of the entry for `p` in `s`.
spec fn pos_of<H>(s: Seq<ProcessEntry<H>>, p: PID) -> int {
    choose|i: int| 0 <= i < s.len() && #[trigger] s[i].pid == p
}

spec fn hosts_of<H>(s: Seq<ProcessEntry<H>>) -> Map<PID, H> {
    Map::new(|p: PID| holds_pid(s, p), |p: PID| s[pos_of(s, p)].host)
}

spec fn contexts_of<H>(s: Seq<ProcessEntry<H>>) -> Map<PID, ContextView> {
    Map::new(|p: PID| holds_pid(s, p), |p: PID| s[pos_of(s, p)].context@)
}

spec fn distinct_pids<H>(s: Seq<ProcessEntry<H>>) -> bool {
    forall|i: int, j: int| 0 <= i < s.len() && 0 <= j < s.len() && i != j ==> #[trigger] s[i].pid != #[trigger] s[j].pid
}

proof fn lemma_pos_of<H>(s: Seq<ProcessEntry<H>>, k: int)
    requires
        distinct_pids(s),
        0 <= k < s.len(),
    ensures
        holds_pid(s, s[k].pid),
        pos_of(s, s[k].pid) == k,
        hosts_of(s).contains_key(s[k].pid),
        hosts_of(s)[s[k].pid] == s[k].host,
        contexts_of(s).contains_key(s[k].pid),
        contexts_of(s)[s[k].pid] == s[k].context@,
{
    let c = pos_of(s, s[k].pid);
    assert(s[c].pid == s[k].pid);
}

proof fn lemma_update<H>(s: Seq<ProcessEntry<H>>, k: int, e: ProcessEntry<H>)
    requires
        distinct_pids(s),
        0 <= k < s.len(),
        e.pid == s[k].pid,
    ensures
        distinct_pids(s.update(k, e)),
        hosts_of(s.update(k, e)) == hosts_of(s).insert(e.pid, e.host),
        contexts_of(s.update(k, e)) == contexts_of(s).insert(e.pid, e.context@),
{
    let t = s.update(k, e);
    assert forall|i: int, j: int| 0 <= i < t.len() && 0 <= j < t.len() && i != j implies #[trigger] t[i].pid != #[trigger] t[j].pid by {
        assert(t[i].pid == s[i].pid && t[j].pid == s[j].pid);
    }
    assert forall|p: PID| #[trigger] holds_pid(t, p) == holds_pid(s, p) by {
        if holds_pid(s, p) {
            let i = choose|i: int| 0 <= i < s.len() && #[trigger] s[i].pid == p;
            assert(t[i].pid == p);
        }
        if holds_pid(t, p) {
            let i = choose|i: int| 0 <= i < t.len() && #[trigger] t[i].pid == p;
            assert(s[i].pid == p);
        }
    }
    assert forall|p: PID| holds_pid(s, p) implies #[trigger] pos_of(t, p) == pos_of(s, p) by {
        let i = pos_of(s, p);
        lemma_pos_of(s, i);
        lemma_pos_of(t, i);
    }
    lemma_pos_of(t, k);
    assert(hosts_of(t) =~= hosts_of(s).insert(e.pid, e.host));
    assert(contexts_of(t) =~= contexts_of(s).insert(e.pid, e.context@));
}

proof fn lemma_push<H>(s: Seq<ProcessEntry<H>>, e: ProcessEntry<H>)
    requires
        distinct_pids(s),
        !holds_pid(s, e.pid),
    ensures
        distinct_pids(s.push(e)),
        hosts_of(s.push(e)) == hosts_of(s).insert(e.pid, e.host),
        contexts_of(s.push(e)) == contexts_of(s).insert(e.pid, e.context@),
{
    let t = s.push(e);
    assert forall|i: int, j: int| 0 <= i < t.len() && 0 <= j < t.len() && i != j implies #[trigger] t[i].pid != #[trigger] t[j].pid by {
        if i == s.len() {
            assert(t[j] == s[j]);
        } else if j == s.len() {
            assert(t[i] == s[i]);
        } else {
            assert(t[i] == s[i] && t[j] == s[j]);
        }
    }
    assert forall|p: PID| #[trigger] holds_pid(t, p) == (holds_pid(s, p) || p == e.pid) by {
        if holds_pid(s, p) {
            let i = choose|i: int| 0 <= i < s.len() && #[trigger] s[i].pid == p;
            assert(t[i].pid == p);
        }
        if p == e.pid {
            assert(t[s.len() as int].pid == p);
        }
        if holds_pid(t, p) && p != e.pid {
            let i = choose|i: int| 0 <= i < t.len() && #[trigger] t[i].pid == p;
            assert(i < s.len());
            assert(s[i].pid == p);
        }
    }
    assert forall|p: PID| holds_pid(s, p) implies #[trigger] pos_of(t, p) == pos_of(s, p) by {
        let i = pos_of(s, p);
        lemma_pos_of(s, i);
        assert(t[i] == s[i]);
        lemma_pos_of(t, i);
    }
    lemma_pos_of(t, s.len() as int);
    assert(hosts_of(t) =~= hosts_of(s).insert(e.pid, e.host));
    assert(contexts_of(t) =~= contexts_of(s).insert(e.pid, e.context@));
}

proof fn lemma_remove<H>(s: Seq<ProcessEntry<H>>, k: int)
    requires
        distinct_pids(s),
        0 <= k < s.len(),
    ensures
        distinct_pids(s.remove(k)),
        hosts_of(s.remove(k)) == hosts_of(s).remove(s[k].pid),
        contexts_of(s.remove(k)) == contexts_of(s).remove(s[k].pid),
{
    let t = s.remove(k);
    assert forall|i: int| 0 <= i < t.len() implies #[trigger] t[i] == s[if i < k { i } else { i + 1 }] by {}
    assert forall|i: int, j: int| 0 <= i < t.len() && 0 <= j < t.len() && i != j implies #[trigger] t[i].pid != #[trigger] t[j].pid by {
        assert(t[i] == s[if i < k { i } else { i + 1 }]);
        assert(t[j] == s[if j < k { j } else { j + 1 }]);
    }
    assert forall|p: PID| #[trigger] holds_pid(t, p) == (holds_pid(s, p) && p != s[k].pid) by {
        if holds_pid(s, p) && p != s[k].pid {
            let i = choose|i: int| 0 <= i < s.len() && #[trigger] s[i].pid == p;
            assert(i != k);
            let j = if i < k { i } else { i - 1 };
            assert(t[j] == s[i]);
        }
        if holds_pid(t, p) {
            let j = choose|j: int| 0 <= j < t.len() && #[trigger] t[j].pid == p;
            let i = if j < k { j } else { j + 1 };
            assert(t[j] == s[i]);
            assert(i != k);
        }
    }
    assert forall|p: PID| holds_pid(t, p) implies #[trigger] t[pos_of(t, p)] == s[pos_of(s, p)] by {
        let j = pos_of(t, p);
        lemma_pos_of(t, j);
        let i = if j < k { j } else { j + 1 };
        assert(t[j] == s[i]);
        lemma_pos_of(s, i);
    }
    assert(hosts_of(t) =~= hosts_of(s).remove(s[k].pid));
    assert(contexts_of(t) =~= contexts_of(s).remove(s[k].pid));
}

impl<H> View for ProcessTable<H> {
    type V = TableView<H>;

    closed spec fn view(&self) -> TableView<H> {
        TableView { hosts: hosts_of(self.entries@), contexts: contexts_of(self.entries@), next_id: self.process_id_counter }
    }
}

/// `c` with `child` added to its children.
pub open spec fn with_child(c: ContextView, child: PID) -> ContextView {
    ContextView { children: c.children.push(child), ..c }
}

/// `c` with `linked` added to its links.
pub open spec fn with_link(c: ContextView, linked: PID) -> ContextView {
    ContextView { linked: c.linked.push(linked), ..c }
}

/// What `add_child_process` returns, and the contexts after it.
pub open spec fn add_child_spec(m: Map<PID, ContextView>, pid: PID, child: PID) -> (Result<(), KernalError>, Map<PID, ContextView>) {
    if !m.contains_key(pid) {
        (Err(KernalError::ProcessNotFound(pid)), m)
    } else if !m.contains_key(child) {
        (Err(KernalError::ProcessNotFound(child)), m)
    } else if m[pid].children.contains(child) {
        (Err(KernalError::ProcessAlreadyLinked(pid, child)), m)
    } else {
        let m1 = m.insert(pid, with_child(m[pid], child));
        (Ok(()), m1.insert(child, ContextView { parent: Some(pid), ..m1[child] }))
    }
}

/// What `link_process` returns, and the contexts after it.
pub open spec fn link_spec(m: Map<PID, ContextView>, pid: PID, linked: PID) -> (Result<(), KernalError>, Map<PID, ContextView>) {
    if !m.contains_key(pid) {
        (Err(KernalError::ProcessNotFound(pid)), m)
    } else if !m.contains_key(linked) {
        (Err(KernalError::ProcessNotFound(linked)), m)
    } else if m[pid].linked.contains(linked) {
        (Err(KernalError::ProcessAlreadyLinked(pid, linked)), m)
    } else {
        (Ok(()), m.insert(pid, with_link(m[pid], linked)))
    }
}

/// What `unlink_process` returns, and the contexts after it.
pub open spec fn unlink_spec(m: Map<PID, ContextView>, pid: PID, linked: PID) -> (Result<(), KernalError>, Map<PID, ContextView>) {
    if !m.contains_key(pid) {
        (Err(KernalError::ProcessNotFound(pid)), m)
    } else if !m.contains_key(linked) {
        (Err(KernalError::ProcessNotFound(linked)), m)
    } else if !m[pid].linked.contains(linked) {
        (Err(KernalError::ProcessNotLinked(pid)), m)
    } else {
        (Ok(()), m.insert(pid, ContextView { linked: without(m[pid].linked, linked), ..m[pid] }))
    }
}

impl<H> ProcessTable<H> {
    /// No two entries share an id, and every id is below the next one to be given.
    pub closed spec fn wf(&self) -> bool {
        &&& distinct_pids(self.entries@)
        &&& forall|i: int| 0 <= i < self.entries@.len() ==> #[trigger] self.entries@[i].pid < self.process_id_counter
    }

    proof fn lemma_entry(&self, k: int)
        requires
            self.wf(),
            0 <= k < self.entries@.len(),
        ensures
            self@.hosts.contains_key(self.entries@[k].pid),
            self@.hosts[self.entries@[k].pid] == self.entries@[k].host,
            self@.contexts.contains_key(self.entries@[k].pid),
            self@.contexts[self.entries@[k].pid] == self.entries@[k].context@,
    {
        lemma_pos_of(self.entries@, k);
    }

    /// An empty table; the first process gets id 0.
    pub fn new() -> (r: ProcessTable<H>)
        ensures
            r.wf(),
            r@.hosts == Map::<PID, H>::empty(),
            r@.contexts == Map::<PID, ContextView>::empty(),
            r@.next_id == 0,
    {
        let r = ProcessTable { entries: Vec::new(), process_id_counter: 0 };
        assert(r@.contexts.dom() =~= Set::<PID>::empty());
        assert(r@.hosts =~= Map::<PID, H>::empty());
        assert(r@.contexts =~= Map::<PID, ContextView>::empty());
        r
    }

    /// Where the process `pid` is held, if anywhere.
    fn index_of(&self, pid: PID) -> (r: Option<usize>)
        requires
            self.wf(),
        ensures
            r matches Some(k) ==> k < self.entries@.len() && self.entries@[k as int].pid == pid,
            r is None ==> !self@.contexts.contains_key(pid) && !self@.hosts.contains_key(pid),
    {
        let mut i: usize = 0;
        while i < self.entries.len()
            invariant
                0 <= i <= self.entries.len(),
                forall|j: int| 0 <= j < i ==> #[trigger] self.entries@[j].pid != pid,
            decreases self.entries.len() - i,
        {
            if self.entries[i].pid == pid {
                return Some(i);
            }
            i += 1;
        }
        None
    }

    pub fn process_exists(&self, process_id: PID) -> (r: bool)
        requires
            self.wf(),
        ensures
            r == self@.contexts.contains_key(process_id),
    {
        match self.index_of(process_id) {
            Some(k) => {
                proof {
                    self.lemma_entry(k as int);
                }
                true
            },
            None => false,
        }
    }

    /// Adds a process under the next id, which it returns.
    pub fn add_process(&mut self, process: H) -> (r: Result<PID, KernalError>)
        requires
            old(self).wf(),
            old(self)@.next_id < u32::MAX,
        ensures
            final(self).wf(),
            r == Ok::<PID, KernalError>(old(self)@.next_id),
            final(self)@.hosts == old(self)@.hosts.insert(old(self)@.next_id, process),
            final(self)@.contexts == old(self)@.contexts.insert(
                old(self)@.next_id,
                ContextView { linked: Seq::empty(), children: Seq::empty(), parent: None, id: old(self)@.next_id },
            ),
            final(self)@.next_id == old(self)@.next_id + 1,
    {
        let process_id = self.process_id_counter;
        let ghost before = self.entries@;
        let entry = ProcessEntry { pid: process_id, host: process, context: ProcessContext::new(process_id) };
        proof {
            if holds_pid(before, process_id) {
                let i = choose|i: int| 0 <= i < before.len() && #[trigger] before[i].pid == process_id;
                assert(before[i].pid < process_id);
            }
            lemma_push(before, entry);
        }
        self.entries.push(entry);
        self.process_id_counter = process_id + 1;
        assert forall|i: int| 0 <= i < self.entries@.len() implies #[trigger] self.entries@[i].pid < self.process_id_counter by {
            if i < before.len() {
                assert(self.entries@[i] == before[i]);
            }
        }
        Ok(process_id)
    }

    /// Takes the process `process_id` out of the table, if it is there.
    pub fn remove_process(&mut self, process_id: PID)
        requires
            old(self).wf(),
        ensures
            final(self).wf(),
            final(self)@.hosts == old(self)@.hosts.remove(process_id),
            final(self)@.contexts == old(self)@.contexts.remove(process_id),
            final(self)@.next_id == old(self)@.next_id,
    {
        match self.index_of(process_id) {
            None => {
                assert(self@.hosts =~= self@.hosts.remove(process_id));
                assert(self@.contexts =~= self@.contexts.remove(process_id));
            },
            Some(k) => {
                let ghost before = self.entries@;
                proof {
                    lemma_remove(before, k as int);
                }
                self.entries.remove(k);
                assert forall|i: int| 0 <= i < self.entries@.len() implies #[trigger] self.entries@[i].pid < self.process_id_counter by {
                    assert(self.entries@[i] == before[if i < k { i } else { i + 1 }]);
                }
            },
        }
    }

    /// Records `child_process_id` as a child of `process_id`, and
    /// `process_id` as its parent. Both must be in the table, and the child
    /// not yet recorded.
    pub fn add_child_process(&mut self, process_id: PID, child_process_id: PID) -> (r: Result<(), KernalError>)
        requires
            old(self).wf(),
        ensures
            final(self).wf(),
            (r, final(self)@.contexts) == add_child_spec(old(self)@.contexts, process_id, child_process_id),
            final(self)@.hosts == old(self)@.hosts,
            final(self)@.next_id == old(self)@.next_id,
    {
        let k = match self.index_of(process_id) {
            None => { return Err(KernalError::ProcessNotFound(process_id)); },
            Some(k) => k,
        };
        let kc = match self.index_of(child_process_id) {
            None => { return Err(KernalError::ProcessNotFound(child_process_id)); },
            Some(kc) => kc,
        };
        proof {
            self.lemma_entry(k as int);
            self.lemma_entry(kc as int);
        }
        if contains_pid(&self.entries[k].context.child_processes, child_process_id) {
            return Err(KernalError::ProcessAlreadyLinked(process_id, child_process_id));
        }
        let ghost before = self.entries@;
        let ghost m = self@.contexts;
        let ghost hosts = self@.hosts;
        {
            let entry = &mut self.entries[k];
            entry.context.child_processes.push(child_process_id);
        }
        proof {
            lemma_update(before, k as int, self.entries@[k as int]);
            assert(before.update(k as int, self.entries@[k as int]) =~= self.entries@);
        }
        let ghost mid = self.entries@;
        let ghost m1 = self@.contexts;
        assert(m1 == m.insert(process_id, with_child(m[process_id], child_process_id)));
        {
            let entry = &mut self.entries[kc];
            entry.context.parent_process = Some(process_id);
        }
        proof {
            lemma_pos_of(mid, kc as int);
            lemma_update(mid, kc as int, self.entries@[kc as int]);
            assert(mid.update(kc as int, self.entries@[kc as int]) =~= self.entries@);
            assert(self@.hosts =~= hosts);
        }
        assert forall|i: int| 0 <= i < self.entries@.len() implies #[trigger] self.entries@[i].pid < self.process_id_counter by {
            assert(self.entries@[i].pid == before[i].pid);
        }
        Ok(())
    }

    /// Records `linked_process_id` as linked to `process_id`. Both must be
    /// in the table, and the link not yet recorded.
    pub fn link_process(&mut self, process_id: PID, linked_process_id: PID) -> (r: Result<(), KernalError>)
        requires
            old(self).wf(),
        ensures
            final(self).wf(),
            (r, final(self)@.contexts) == link_spec(old(self)@.contexts, process_id, linked_process_id),
            final(self)@.hosts == old(self)@.hosts,
            final(self)@.next_id == old(self)@.next_id,
    {
        let k = match self.index_of(process_id) {
            None => { return Err(KernalError::ProcessNotFound(process_id)); },
            Some(k) => k,
        };
        if self.index_of(linked_process_id).is_none() {
            return Err(KernalError::ProcessNotFound(linked_process_id));
        }
        proof {
            self.lemma_entry(k as int);
        }
        if contains_pid(&self.entries[k].context.linked_processes, linked_process_id) {
            return Err(KernalError::ProcessAlreadyLinked(process_id, linked_process_id));
        }
        let ghost before = self.entries@;
        let ghost hosts = self@.hosts;
        {
            let entry = &mut self.entries[k];
            entry.context.linked_processes.push(linked_process_id);
        }
        proof {
            lemma_update(before, k as int, self.entries@[k as int]);
            assert(before.update(k as int, self.entries@[k as int]) =~= self.entries@);
            assert(self@.hosts =~= hosts);
        }
        assert forall|i: int| 0 <= i < self.entries@.len() implies #[trigger] self.entries@[i].pid < self.process_id_counter by {
            assert(self.entries@[i].pid == before[i].pid);
        }
        Ok(())
    }

    /// Removes every link from `process_id` to `linked_process_id`. Both
    /// must be in the table, and the link recorded.
    pub fn unlink_process(&mut self, process_id: PID, linked_process_id: PID) -> (r: Result<(), KernalError>)
        requires
            old(self).wf(),
        ensures
            final(self).wf(),
            (r, final(self)@.contexts) == unlink_spec(old(self)@.contexts, process_id, linked_process_id),
            final(self)@.hosts == old(self)@.hosts,
            final(self)@.next_id == old(self)@.next_id,
    {
        let k = match self.index_of(process_id) {
            None => { return Err(KernalError::ProcessNotFound(process_id)); },
            Some(k) => k,
        };
        if self.index_of(linked_process_id).is_none() {
            return Err(KernalError::ProcessNotFound(linked_process_id));
        }
        proof {
            self.lemma_entry(k as int);
        }
        if !contains_pid(&self.entries[k].context.linked_processes, linked_process_id) {
            return Err(KernalError::ProcessNotLinked(process_id));
        }
        let kept = remove_pid(&self.entries[k].context.linked_processes, linked_process_id);
        let ghost before = self.entries@;
        let ghost hosts = self@.hosts;
        {
            let entry = &mut self.entries[k];
            entry.context.linked_processes = kept;
        }
        proof {
            lemma_update(before, k as int, self.entries@[k as int]);
            assert(before.update(k as int, self.entries@[k as int]) =~= self.entries@);
            assert(self@.hosts =~= hosts);
        }
        assert forall|i: int| 0 <= i < self.entries@.len() implies #[trigger] self.entries@[i].pid < self.process_id_counter by {
            assert(self.entries@[i].pid == before[i].pid);
        }
        Ok(())
    }

    /// The host of the process `process_id`.
    pub fn get_process(&self, process_id: PID) -> (r: Option<&H>)
        requires
            self.wf(),
        ensures
            r matches Some(h) ==> self@.hosts.contains_key(process_id) && *h == self@.hosts[process_id],
            r is None ==> !self@.hosts.contains_key(process_id),
    {
        match self.index_of(process_id) {
            Some(k) => {
                proof {
                    self.lemma_entry(k as int);
                }
                Some(&self.entries[k].host)
            },
            None => None,
        }
    }

    /// The context of the process `process_id`.
    pub fn get_process_context(&self, process_id: PID) -> (r: Option<&ProcessContext>)
        requires
            self.wf(),
        ensures
            r matches Some(c) ==> self@.contexts.contains_key(process_id) && c@ == self@.contexts[process_id],
            r is None ==> !self@.contexts.contains_key(process_id),
    {
        match self.index_of(process_id) {
            Some(k) => {
                proof {
                    self.lemma_entry(k as int);
                }
                Some(&self.entries[k].context)
            },
            None => None,
        }
    }
}

/// The kernel: the one file system and the process table.
pub struct Kernel<H> {
    vfs: VFS,
    process_table: ProcessTable<H>,
}

impl<H> Kernel<H> {
    /// A kernel with an empty file system and no processes.
    pub fn new() -> (r: Kernel<H>)
        ensures
            r.vfs().wf(),
            r.process_table().wf(),
            r.vfs()@.root.kind == crate::node::KindModel::Directory(Seq::empty()),
            r.process_table()@.contexts == Map::<PID, ContextView>::empty(),
            r.process_table()@.next_id == 0,
    {
        Kernel { vfs: VFS::new(), process_table: ProcessTable::new() }
    }

    pub closed spec fn vfs(&self) -> VFS {
        self.vfs
    }

    pub closed spec fn process_table(&self) -> ProcessTable<H> {
        self.process_table
    }

    /// The file system.
    pub fn vfs_mut(&mut self) -> (r: &mut VFS)
        ensures
            *r == old(self).vfs(),
            final(self).vfs() == *final(r),
            final(self).process_table() == old(self).process_table(),
    {
        &mut self.vfs
    }

    /// The process table.
    pub fn process_table_mut(&mut self) -> (r: &mut ProcessTable<H>)
        ensures
            *r == old(self).process_table(),
            final(self).process_table() == *final(r),
            final(self).vfs() == old(self).vfs(),
    {
        &mut self.process_table
    }
}

} // verus!
