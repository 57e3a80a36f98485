//! The parsed invocation: direction, scheme, options and the file list.
//!
//! Argument parsing, interactive key entry and directory walking happen
//! outside this crate's verified surface; what arrives here are plain
//! values.  This module validates them, normalises the entered key, decides
//! which scanned directory entries take part, and splits the file list
//! round-robin into one lane per job.

use vstd::arithmetic::div_mod::lemma_fundamental_div_mod_converse;
use vstd::prelude::*;
use vstd::string::StrSliceExecFns;

use crate::err::{AppError, AppResult};

verus! {

/// The key as the pipeline uses it: the entered line with its trailing
/// newline and carriage-return characters removed.
pub open spec fn normalized_key_of(s: Seq<char>) -> Seq<char>
    decreases s.len(),
{
    if s.len() > 0 && (s.last() == '\n' || s.last() == '\r') {
        normalized_key_of(s.drop_last())
    } else {
        s
    }
}

/// Strips trailing newline and carriage-return characters from the entered
/// key line.
pub fn normalize_key(raw: &str) -> (k: String)
    ensures
        k@ == normalized_key_of(raw@),
{
    let n = raw.unicode_len();
    let mut keep = n;
    proof {
        assert(raw@.take(n as int) =~= raw@);
    }
    while keep > 0
        invariant_except_break
            keep <= n,
            n == raw@.len(),
            normalized_key_of(raw@) == normalized_key_of(raw@.take(keep as int)),
        ensures
            keep <= n,
            n == raw@.len(),
            normalized_key_of(raw@) == normalized_key_of(raw@.take(keep as int)),
            keep > 0 ==> !(raw@[keep - 1] == '\n' || raw@[keep - 1] == '\r'),
        decreases keep,
    {
        let c = raw.get_char(keep - 1);
        if !(c == '\n' || c == '\r') {
            break ;
        }
        proof {
            assert(raw@.take(keep as int).drop_last() =~= raw@.take(keep as int - 1));
        }
        keep = keep - 1;
    }
    let kept = raw.substring_char(0, keep);
    kept.to_owned()
}

/// The fixed name of the run's log file, which scans must skip.
pub open spec fn logger_file_name() -> Seq<char> {
    seq!['x', 'r', 'c', '_', 'l', 'o', 'g', '.', 't', 'x', 't']
}

/// The reserved extension, as a path's extension component.
pub open spec fn reserved_extension() -> Seq<char> {
    seq!['x', 'r', 'c']
}

/// Whether a scanned directory entry takes part in the run: the log file
/// never does; encrypting takes every file not already carrying the
/// reserved extension; decrypting takes exactly the files carrying it.
pub open spec fn scan_selects_of(
    file_name: Seq<char>,
    extension: Option<Seq<char>>,
    to_encrypt: bool,
) -> bool {
    if file_name == logger_file_name() {
        false
    } else {
        match extension {
            Some(e) => if to_encrypt {
                e != reserved_extension()
            } else {
                e == reserved_extension()
            },
            None => to_encrypt,
        }
    }
}

/// Compares two strings character by character.
fn str_eq(a: &str, b: &str) -> (r: bool)
    ensures
        r == (a@ == b@),
{
    let na = a.unicode_len();
    let nb = b.unicode_len();
    if na != nb {
        return false;
    }
    let mut i: usize = 0;
    while i < na
        invariant
            i <= na,
            na == a@.len() == b@.len(),
            forall|j: int| 0 <= j < i ==> a@[j] == b@[j],
        decreases na - i,
    {
        if a.get_char(i) != b.get_char(i) {
            return false;
        }
        i = i + 1;
    }
    proof {
        assert(a@ =~= b@);
    }
    true
}

/// Decides whether one scanned directory entry takes part.  The caller
/// hands in the entry's file name and its extension component, if any.
pub fn scan_selects(file_name: &str, extension: Option<&str>, to_encrypt: bool) -> (sel: bool)
    ensures
        sel == scan_selects_of(
            file_name@,
            match extension {
                Some(e) => Some(e@),
                None => None,
            },
            to_encrypt,
        ),
{
    proof {
        reveal_strlit("xrc_log.txt");
        reveal_strlit("xrc");
        assert("xrc_log.txt"@ =~= logger_file_name());
        assert("xrc"@ =~= reserved_extension());
    }
    if str_eq(file_name, "xrc_log.txt") {
        return false;
    }
    match extension {
        Some(e) => {
            let is_reserved = str_eq(e, "xrc");
            if to_encrypt {
                !is_reserved
            } else {
                is_reserved
            }
        },
        None => to_encrypt,
    }
}

/// How many of the first `n` positions fall in lane `l` when dealt
/// round-robin over `jobs` lanes.
pub open spec fn lane_len_of(n: int, jobs: int, l: int) -> int {
    if n <= l {
        0
    } else {
        (n - l - 1) / jobs + 1
    }
}

/// A position within a lane stays within the dealt range.
proof fn lemma_lane_index_bound(n: int, jobs: int, l: int, t: int)
    requires
        jobs >= 1,
        0 <= l,
        0 <= t < lane_len_of(n, jobs, l),
    ensures
        l + t * jobs < n,
{
    let q = (n - l - 1) / jobs;
    vstd::arithmetic::div_mod::lemma_fundamental_div_mod(n - l - 1, jobs);
    assert(q * jobs <= n - l - 1) by (nonlinear_arith)
        requires
            n - l - 1 == q * jobs + ((n - l - 1) % jobs),
            (n - l - 1) % jobs >= 0,
    ;
    assert(t * jobs <= q * jobs) by (nonlinear_arith)
        requires
            t <= q,
            jobs >= 1,
    ;
}

/// The validated invocation.
pub struct CliArgs {
    /// Keep source files even after success.
    pub preserve: bool,
    /// True to encrypt, false to decrypt.
    pub to_encrypt: bool,
    /// The resolved, absolute source paths.
    pub paths: Vec<String>,
    /// Where the run's log file goes.
    pub log_path: String,
    /// How many lanes the run uses.
    pub n_jobs: usize,
    /// Use the legacy cipher scheme.
    pub legacy: bool,
}

impl CliArgs {
    /// Validates a parsed invocation: exactly one direction flag, at least
    /// one resolved path, at least one lane.
    pub fn new(
        encrypt: bool,
        decrypt: bool,
        legacy: bool,
        preserve: bool,
        n_jobs: usize,
        paths: Vec<String>,
        log_path: String,
    ) -> (r: AppResult<CliArgs>)
        ensures
            r is Ok <==> encrypt != decrypt && n_jobs >= 1 && paths@.len() > 0,
            r matches Ok(c) ==> {
                &&& c.preserve == preserve
                &&& c.to_encrypt == encrypt
                &&& c.legacy == legacy
                &&& c.n_jobs == n_jobs
                &&& c.paths == paths
                &&& c.log_path == log_path
            },
            r matches Err(e) ==> (e == AppError::IncorrectFlags && (encrypt == decrypt || n_jobs
                == 0)) || (e == AppError::NoFilesOrFolder && encrypt != decrypt && n_jobs >= 1
                && paths@.len() == 0),
    {
        if encrypt == decrypt {
            return Err(AppError::IncorrectFlags);
        }
        if n_jobs == 0 {
            return Err(AppError::IncorrectFlags);
        }
        if paths.len() == 0 {
            return Err(AppError::NoFilesOrFolder);
        }
        Ok(CliArgs { preserve, to_encrypt: encrypt, paths, log_path, n_jobs, legacy })
    }

    /// Whether sources are kept after success.
    pub fn should_preserve(&self) -> (b: bool)
        ensures
            b == self.preserve,
    {
        self.preserve
    }

    /// The run's direction.
    pub fn to_encrypt(&self) -> (b: bool)
        ensures
            b == self.to_encrypt,
    {
        self.to_encrypt
    }

    /// Whether the legacy scheme applies.
    pub fn is_legacy(&self) -> (b: bool)
        ensures
            b == self.legacy,
    {
        self.legacy
    }

    /// How many files the run processes.
    pub fn get_path_count(&self) -> (n: usize)
        ensures
            n == self.paths@.len(),
    {
        self.paths.len()
    }

    /// The lane count.
    pub fn get_jobs(&self) -> (n: usize)
        ensures
            n == self.n_jobs,
    {
        self.n_jobs
    }

    /// Where the log file goes.
    pub fn get_log_path(&self) -> (p: &String)
        ensures
            p == &self.log_path,
    {
        &self.log_path
    }

    /// Deals the file list round-robin into one list per lane: lane `l`
    /// holds the paths at positions `l`, `l + n_jobs`, `l + 2*n_jobs`, and
    /// so on, in that order.
    pub fn get_paths(&self) -> (pool: Vec<Vec<String>>)
        requires
            self.n_jobs >= 1,
            self.paths@.len() + self.n_jobs <= usize::MAX,
        ensures
            pool@.len() == self.n_jobs,
            forall|l: int|
                0 <= l < pool@.len() ==> (#[trigger] pool@[l])@.len() == lane_len_of(
                    self.paths@.len() as int,
                    self.n_jobs as int,
                    l,
                ),
            forall|l: int, t: int|
                #![trigger pool@[l], t * (self.n_jobs as int)]
                0 <= l < pool@.len() && 0 <= t < pool@[l]@.len() ==> {
                    &&& l + t * (self.n_jobs as int) < self.paths@.len()
                    &&& pool@[l]@[t] == self.paths@[l + t * (self.n_jobs as int)]
                },
    {
        let jobs = self.n_jobs;
        let n = self.paths.len();
        let ghost jobsi = jobs as int;
        let mut pool: Vec<Vec<String>> = Vec::new();
        let mut l: usize = 0;
        while l < jobs
            invariant
                l <= jobs,
                jobs == self.n_jobs >= 1,
                n == self.paths@.len(),
                n + jobs <= usize::MAX,
                jobsi == jobs as int,
                pool@.len() == l,
                forall|l2: int|
                    0 <= l2 < l ==> (#[trigger] pool@[l2])@.len() == lane_len_of(
                        n as int,
                        jobsi,
                        l2,
                    ),
                forall|l2: int, t: int|
                    0 <= l2 < l && 0 <= t < pool@[l2]@.len() ==> (#[trigger] pool@[l2]@[t])
                        == self.paths@[l2 + t * jobsi],
            decreases jobs - l,
        {
            let mut lane: Vec<String> = Vec::new();
            let mut k: usize = l;
            proof {
                assert(lane@.len() == 0);
                assert(lane@.len() * jobsi == 0) by (nonlinear_arith)
                    requires
                        lane@.len() == 0,
                ;
            }
            while k < n
                invariant
                    jobs == self.n_jobs >= 1,
                    n == self.paths@.len(),
                    n + jobs <= usize::MAX,
                    jobsi == jobs as int,
                    l < jobs,
                    k as int == l + lane@.len() * jobsi,
                    lane@.len() >= 1 ==> l + (lane@.len() - 1) * jobsi < n,
                    forall|t: int|
                        0 <= t < lane@.len() ==> (#[trigger] lane@[t]) == self.paths@[l + t
                            * jobsi],
                decreases n + jobs - k,
            {
                lane.push(self.paths[k].clone());
                proof {
                    let len = lane@.len() as int;
                    assert(l + (len - 1) * jobsi == k) by (nonlinear_arith)
                        requires
                            k as int == l + (len - 1) * jobsi,
                    ;
                    assert(l + len * jobsi == k + jobsi) by (nonlinear_arith)
                        requires
                            k as int == l + (len - 1) * jobsi,
                    ;
                }
                k = k + jobs;
            }
            proof {
                let len = lane@.len() as int;
                let ni = n as int;
                let li = l as int;
                if li >= ni {
                    assert(len == 0) by (nonlinear_arith)
                        requires
                            li >= ni,
                            len >= 0,
                            jobsi >= 1,
                            len >= 1 ==> li + (len - 1) * jobsi < ni,
                    ;
                } else {
                    assert(len >= 1) by (nonlinear_arith)
                        requires
                            li + len * jobsi >= ni,
                            li < ni,
                            len >= 0,
                            jobsi >= 1,
                    ;
                    let q = len - 1;
                    let r = ni - li - 1 - q * jobsi;
                    assert(0 <= r < jobsi) by (nonlinear_arith)
                        requires
                            r == ni - li - 1 - q * jobsi,
                            li + q * jobsi < ni,
                            ni <= li + (q + 1) * jobsi,
                    ;
                    lemma_fundamental_div_mod_converse(ni - li - 1, jobsi, q, r);
                    assert(len == lane_len_of(ni, jobsi, li));
                }
            }
            pool.push(lane);
            proof {
                assert forall|l2: int, t: int|
                    0 <= l2 < pool@.len() && 0 <= t < pool@[l2]@.len() implies (#[trigger] pool@[l2]@[t])
                    == self.paths@[l2 + t * jobsi] by {
                    if l2 == l as int {
                        assert(pool@[l2] == lane);
                        assert(lane@[t] == self.paths@[l2 + t * jobsi]);
                    }
                }
            }
            l = l + 1;
        }
        proof {
            assert forall|l2: int, t: int|
                #![trigger pool@[l2], t * (self.n_jobs as int)]
                0 <= l2 < pool@.len() && 0 <= t < pool@[l2]@.len() implies {
                &&& l2 + t * (self.n_jobs as int) < self.paths@.len()
                &&& pool@[l2]@[t] == self.paths@[l2 + t * (self.n_jobs as int)]
            } by {
                assert(jobsi == self.n_jobs as int);
                assert(pool@[l2]@.len() == lane_len_of(n as int, jobsi, l2));
                lemma_lane_index_bound(n as int, jobsi, l2, t);
                assert(t * jobsi == t * (self.n_jobs as int));
            }
        }
        pool
    }
}

} // verus!
