//! Deterministic construction of the kernel file paths the library's data
//! comes from.  The three per-process paths are functions of an optional
//! numeric process id; an absent id denotes the current process through the
//! reserved `self` segment.  The two physical-frame tables live at fixed
//! global paths.

use vstd::prelude::*;
use crate::text::{render_num, render_digits, string_of_chars};

verus! {

/// The path segment naming the process: its decimal id, or `self`.
pub open spec fn pid_segment_text(pid: Option<usize>) -> Seq<char> {
    match pid {
        Some(p) => render_num(p as nat, 10),
        None => "self"@,
    }
}

pub open spec fn maps_path_text(pid: Option<usize>) -> Seq<char> {
    "/proc/"@ + pid_segment_text(pid) + "/maps"@
}

pub open spec fn pagemaps_path_text(pid: Option<usize>) -> Seq<char> {
    "/proc/"@ + pid_segment_text(pid) + "/pagemap"@
}

pub open spec fn clear_refs_path_text(pid: Option<usize>) -> Seq<char> {
    "/proc/"@ + pid_segment_text(pid) + "/clear_refs"@
}

fn pid_to_path(pid: Option<usize>) -> (r: String)
    ensures
        r@ == pid_segment_text(pid),
{
    match pid {
        Some(p) => {
            let digits = render_digits(p as u64, 10);
            string_of_chars(digits.as_slice())
        },
        None => String::from_str("self"),
    }
}

/// The path of the process's textual region table.
pub fn proc_pid_maps_path(pid: Option<usize>) -> (r: String)
    ensures
        r@ == maps_path_text(pid),
{
    let mut s = String::from_str("/proc/");
    let seg = pid_to_path(pid);
    s.append(seg.as_str());
    s.append("/maps");
    s
}

/// The path of the process's binary page-table snapshot.
pub fn proc_pid_pagemaps_path(pid: Option<usize>) -> (r: String)
    ensures
        r@ == pagemaps_path_text(pid),
{
    let mut s = String::from_str("/proc/");
    let seg = pid_to_path(pid);
    s.append(seg.as_str());
    s.append("/pagemap");
    s
}

/// The path of the process's soft-dirty reset control file.
pub fn proc_pid_clear_refs(pid: Option<usize>) -> (r: String)
    ensures
        r@ == clear_refs_path_text(pid),
{
    let mut s = String::from_str("/proc/");
    let seg = pid_to_path(pid);
    s.append(seg.as_str());
    s.append("/clear_refs");
    s
}

/// The fixed path of the global per-frame flags table.
pub fn proc_kpageflags_path() -> (r: String)
    ensures
        r@ == "/proc/kpageflags"@,
{
    String::from_str("/proc/kpageflags")
}

/// The fixed path of the global per-frame reference-count table.
pub fn proc_kpagecount_path() -> (r: String)
    ensures
        r@ == "/proc/kpagecount"@,
{
    String::from_str("/proc/kpagecount")
}

} // verus!
