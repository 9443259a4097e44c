//! Recognising what is left of a game launch.
//!
//! Killing the wrapper process is not enough: the chain is long (umu,
//! pressure-vessel, Proton, wine) and wine reparents its processes, leaving
//! our process group. So processes are found by the marks of our launch and
//! stopped one by one: other games in other prefixes must not be touched.

use vstd::prelude::*;
use vstd::string::StringSliceAdditionalSpecFns;

verus! {

/// `needle` is non-empty and occurs in `haystack`.
pub open spec fn holds_bytes(haystack: Seq<u8>, needle: Seq<u8>) -> bool {
    needle.len() > 0 && exists|i: int| 0 <= i && i + needle.len() <= haystack.len()
        && #[trigger] haystack.subrange(i, i + needle.len()) == needle
}

fn contains_bytes(haystack: &[u8], needle: &[u8]) -> (r: bool)
    ensures
        r == holds_bytes(haystack@, needle@),
{
    if needle.len() == 0 || needle.len() > haystack.len() {
        return false;
    }
    let last = haystack.len() - needle.len();
    let mut i: usize = 0;
    while i <= last
        invariant
            last + needle@.len() == haystack@.len(),
            needle@.len() > 0,
            forall|k: int| 0 <= k < i ==> #[trigger] haystack@.subrange(k, k + needle@.len()) != needle@,
        decreases last + 1 - i,
    {
        let mut same = true;
        let mut j: usize = 0;
        while j < needle.len()
            invariant
                i <= last,
                last + needle@.len() == haystack@.len(),
                j <= needle@.len(),
                same == forall|t: int| 0 <= t < j ==> haystack@[i + t] == needle@[t],
            decreases needle@.len() - j,
        {
            if haystack[i + j] != needle[j] {
                same = false;
            }
            j = j + 1;
        }
        if same {
            assert(haystack@.subrange(i as int, i + needle@.len()) =~= needle@);
            return true;
        }
        proof {
            let t = choose|t: int| 0 <= t < needle@.len() && haystack@[i + t] != needle@[t];
            assert(haystack@.subrange(i as int, i + needle@.len())[t] != needle@[t]);
        }
        i = i + 1;
    }
    proof {
        assert forall|k: int| 0 <= k && k + needle@.len() <= haystack@.len() implies
            #[trigger] haystack@.subrange(k, k + needle@.len()) != needle@ by {
            assert(k < i);
        }
    }
    false
}

/// Whether a process belongs to our launch.
///
/// The links of the chain are recognised differently: the wrapper by the
/// game's exe in its command line, Proton and wineserver by the prefix in
/// their environment. Empty marks match nothing.
pub fn belongs_to(environ: &[u8], cmdline: &[u8], prefix: &str, exe: &str) -> (r: bool)
    ensures
        r == (holds_bytes(environ@, prefix.spec_bytes()) || holds_bytes(cmdline@, exe.spec_bytes())
            || holds_bytes(environ@, exe.spec_bytes())),
{
    let p = prefix.as_bytes();
    let e = exe.as_bytes();
    contains_bytes(environ, p) || contains_bytes(cmdline, e) || contains_bytes(environ, e)
}

/// A running process, as `/proc` shows it.
#[derive(Clone, Debug)]
pub struct ProcInfo {
    pub pid: i32,
    /// Its environment: `NAME=value` entries separated by NUL bytes.
    pub environ: Vec<u8>,
    /// Its command line: arguments separated by NUL bytes.
    pub cmdline: Vec<u8>,
}

/// Whether a process other than `own` belongs to our launch.
pub open spec fn is_target(p: ProcInfo, own: i32, prefix: &str, exe: &str) -> bool {
    p.pid != own && (holds_bytes(p.environ@, prefix.spec_bytes()) || holds_bytes(p.cmdline@, exe.spec_bytes())
        || holds_bytes(p.environ@, exe.spec_bytes()))
}

/// The processes of our launch among `procs` (our own process aside), in
/// order.
pub open spec fn targets_spec(procs: Seq<ProcInfo>, own: i32, prefix: &str, exe: &str) -> Seq<i32>
    decreases procs.len(),
{
    if procs.len() == 0 {
        Seq::empty()
    } else {
        targets_spec(procs.drop_last(), own, prefix, exe) + if is_target(procs.last(), own, prefix, exe) {
            seq![procs.last().pid]
        } else {
            Seq::empty()
        }
    }
}

/// The ids of the processes that belong to our launch.
pub fn find_targets(procs: &[ProcInfo], own: i32, prefix: &str, exe: &str) -> (r: Vec<i32>)
    ensures
        r@ == targets_spec(procs@, own, prefix, exe),
{
    let mut out: Vec<i32> = Vec::new();
    for k in 0..procs.len()
        invariant
            out@ == targets_spec(procs@.take(k as int), own, prefix, exe),
    {
        assert(procs@.take(k + 1).drop_last() == procs@.take(k as int));
        assert(procs@.take(k + 1).last() == procs@[k as int]);
        let p = &procs[k];
        if p.pid != own && belongs_to(&p.environ, &p.cmdline, prefix, exe) {
            out.push(p.pid);
        }
    }
    assert(procs@.take(procs@.len() as int) == procs@);
    out
}

} // verus!
