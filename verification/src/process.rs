//! Which of the running processes are watched.

use vstd::prelude::*;
use vstd::string::*;
use crate::text;
use crate::text::{lowercase, wide_buffer_text};

verus! {

/// Whether `pid` is among `pids`.
pub fn has_pid(pids: &Vec<u32>, pid: u32) -> (b: bool)
    ensures
        b == pids@.contains(pid),
{
    let mut i: usize = 0;
    while i < pids.len()
        invariant
            i <= pids@.len(),
            forall|j: int| 0 <= j < i ==> pids@[j] != pid,
        decreases pids@.len() - i,
    {
        if pids[i] == pid {
            return true;
        }
        i = i + 1;
    }
    false
}

/// A running process: its identifier and the buffer with the name of its executable.
pub struct ProcessEntry {
    pub pid: u32,
    pub exe: Vec<u16>,
}

impl ProcessEntry {
    /// The name of the executable: the buffer up to the first NUL, read as UTF-16.
    pub open spec fn exe_name(self) -> Seq<char> {
        text::utf16_lossy(text::until(self.exe@, 0))
    }

    /// Whether the executable is called `name`, letter case aside.
    pub open spec fn is_called(self, name: Seq<char>) -> bool {
        text::lower(self.exe_name()) == text::lower(name)
    }
}

/// The identifiers of the processes in `list` whose executable is called `name`,
/// each once, in the order of the list.
pub open spec fn pids_called(name: Seq<char>, list: Seq<ProcessEntry>) -> Seq<u32>
    decreases list.len(),
{
    if list.len() == 0 {
        Seq::empty()
    } else {
        let before = pids_called(name, list.drop_last());
        if list.last().is_called(name) && !before.contains(list.last().pid) {
            before.push(list.last().pid)
        } else {
            before
        }
    }
}

/// On ASCII texts, being called alike is being equal up to the case of letters.
pub open spec fn ascii_alike(e: ProcessEntry, name: Seq<char>) -> bool {
    text::all_ascii(name) && text::all_ascii(e.exe_name()) ==> (e.is_called(name)
        <==> text::ascii_lowered(e.exe_name()) == text::ascii_lowered(name))
}

/// Finds the processes whose executable is called `name`, letter case aside.
pub fn find_pids_by_name(name: &str, list: &Vec<ProcessEntry>) -> (pids: Vec<u32>)
    ensures
        pids@ == pids_called(name@, list@),
        forall|i: int| 0 <= i < list@.len() ==> ascii_alike(#[trigger] list@[i], name@),
{
    let target = lowercase(name);
    let mut pids: Vec<u32> = Vec::new();
    let mut i: usize = 0;
    while i < list.len()
        invariant
            i <= list.len(),
            target@ == text::lower(name@),
            text::all_ascii(name@) ==> target@ == text::ascii_lowered(name@),
            forall|j: int| 0 <= j < i ==> ascii_alike(#[trigger] list@[j], name@),
            pids@ == pids_called(name@, list@.take(i as int)),
        decreases list.len() - i,
    {
        let exe = wide_buffer_text(list[i].exe.as_slice());
        let cur = lowercase(exe.as_str());
        proof {
            assert(list@.take(i + 1).drop_last() =~= list@.take(i as int));
        }
        if cur == target && !has_pid(&pids, list[i].pid) {
            pids.push(list[i].pid);
        }
        i = i + 1;
    }
    proof {
        assert(list@.take(i as int) =~= list@);
    }
    pids
}

/// A process is found exactly if its executable has the name, and found once.
pub proof fn law_found_iff_called(name: Seq<char>, list: Seq<ProcessEntry>)
    ensures
        pids_called(name, list).no_duplicates(),
        forall|pid: u32|
            #![trigger pids_called(name, list).contains(pid)]
            pids_called(name, list).contains(pid) <==> exists|i: int|
                0 <= i < list.len() && (#[trigger] list[i]).pid == pid && list[i].is_called(name),
    decreases list.len(),
{
    if list.len() > 0 {
        let rest = list.drop_last();
        let before = pids_called(name, rest);
        let all = pids_called(name, list);
        law_found_iff_called(name, rest);
        assert forall|pid: u32| #![trigger all.contains(pid)] all.contains(pid) <==> exists|i: int|
            0 <= i < list.len() && (#[trigger] list[i]).pid == pid && list[i].is_called(name) by {
            if all.contains(pid) {
                if before.contains(pid) {
                    let i = choose|i: int|
                        0 <= i < rest.len() && (#[trigger] rest[i]).pid == pid && rest[i].is_called(
                            name,
                        );
                    assert(list[i] == rest[i]);
                } else {
                    assert(list[list.len() - 1].pid == pid);
                }
            }
            if exists|i: int|
                0 <= i < list.len() && (#[trigger] list[i]).pid == pid && list[i].is_called(name) {
                let i = choose|i: int|
                    0 <= i < list.len() && (#[trigger] list[i]).pid == pid && list[i].is_called(
                        name,
                    );
                if i < rest.len() {
                    assert(rest[i] == list[i]);
                    assert(before.contains(pid));
                    let j = choose|j: int| 0 <= j < before.len() && before[j] == pid;
                    assert(all[j] == pid);
                } else {
                    if !before.contains(pid) {
                        assert(all.last() == pid);
                    }
                    assert(all.contains(pid)) by {
                        if before.contains(pid) {
                            let j = choose|j: int| 0 <= j < before.len() && before[j] == pid;
                            assert(all[j] == pid);
                        }
                    }
                }
            }
        }
    }
}

/// A process is called by a name if the two read alike in lower case, the name of the
/// executable being its buffer up to the first NUL.
pub proof fn law_called(e: ProcessEntry, name: Seq<char>)
    ensures
        e.is_called(name) <==> text::lower(text::utf16_lossy(text::until(e.exe@, 0)))
            == text::lower(name),
{
}

/// A buffer that holds a name and a NUL behind it, or fills up with it, names the
/// executable so.
pub proof fn law_written_name(e: ProcessEntry, name: Seq<char>, rest: Seq<u16>)
    requires
        !name.contains('\0'),
        e.exe@ == text::utf16(name) + seq![0u16] + rest || e.exe@ == text::utf16(name),
    ensures
        e.exe_name() == name,
        e.is_called(name),
{
    let w = text::utf16(name);
    let b = e.exe@;
    text::law_utf16_without_nul(name);
    text::law_utf16_round_trip(name);
    text::law_until(b, 0);
    let u = text::until(b, 0);
    if u.len() < w.len() {
        assert(b[u.len() as int] == w[u.len() as int]);
        assert(w.contains(0));
    }
    if u.len() > w.len() {
        assert(b[w.len() as int] == 0);
        assert(u[w.len() as int] == 0);
        assert(u.contains(0));
    }
    assert(u =~= w);
}

/// Processes are found in the order of the list: what further processes add stands
/// behind what was found before them.
pub proof fn law_found_in_order(name: Seq<char>, list: Seq<ProcessEntry>, more: Seq<ProcessEntry>)
    ensures
        pids_called(name, list).is_prefix_of(pids_called(name, list + more)),
    decreases more.len(),
{
    let all = list + more;
    if more.len() == 0 {
        assert(all =~= list);
    } else {
        assert(all.drop_last() =~= list + more.drop_last());
        law_found_in_order(name, list, more.drop_last());
    }
}

} // verus!
