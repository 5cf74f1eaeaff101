//! Control-socket location by the pidfile convention.
//!
//! A daemon named `target` keeps `{run_dir}/{target}.pid`, whose trimmed
//! contents are its process id, and exposes its control socket at
//! `{run_dir}/{target}.{pid}.ctl`. This module computes those paths and
//! decides the outcome; reading the filesystem is the caller's part.

use vstd::prelude::*;
use vstd::string::StrSliceExecFns;

use crate::error::Error;

verus! {

/// Fallback run directory when the environment names none.
pub fn default_run_dir() -> (s: String)
    ensures
        s@ == "/var/run/openvswitch"@,
{
    String::from_str("/var/run/openvswitch")
}

/// The run directory to use: the environment's value where it is set
/// and valid text (the caller passes `None` otherwise), else the fixed
/// well-known directory.
pub fn resolve_run_dir(env_value: Option<String>) -> (r: String)
    ensures
        env_value matches Some(d) ==> r == d,
        env_value is None ==> r@ == "/var/run/openvswitch"@,
{
    match env_value {
        Some(d) => d,
        None => default_run_dir(),
    }
}

/// `dir` and `name` joined by exactly one `/`; an empty `dir` leaves
/// `name` alone.
pub open spec fn spec_path_join(dir: Seq<char>, name: Seq<char>) -> Seq<char> {
    if dir.len() == 0 {
        name
    } else if dir.last() == '/' {
        dir + name
    } else {
        dir + seq!['/'] + name
    }
}

/// Joins a directory and a file name with exactly one separator.
pub fn path_join(dir: &str, name: &str) -> (p: String)
    ensures
        p@ == spec_path_join(dir@, name@),
{
    let n = dir.unicode_len();
    let mut out = String::new();
    if n == 0 {
        out.append(name);
        return out;
    }
    out.append(dir);
    if dir.get_char(n - 1) != '/' {
        out.push('/');
    }
    out.append(name);
    proof {
        if dir@.last() != '/' {
            assert(out@ =~= dir@ + seq!['/'] + name@);
        }
    }
    out
}

/// The pidfile consulted for `target` under `run_dir`: `{target}.pid`.
pub fn pidfile_path(run_dir: &str, target: &str) -> (p: String)
    ensures
        p@ == spec_path_join(run_dir@, target@ + ".pid"@),
{
    let mut name = String::new();
    name.append(target);
    name.append(".pid");
    path_join(run_dir, name.as_str())
}

/// A character with the White_Space property, as `char::is_whitespace`
/// and `str::trim` see it.
pub open spec fn is_trim_ws(c: char) -> bool {
    ||| 9 <= c as u32 <= 13
    ||| c as u32 == 32
    ||| c as u32 == 0x85
    ||| c as u32 == 0xa0
    ||| c as u32 == 0x1680
    ||| 0x2000 <= c as u32 <= 0x200a
    ||| c as u32 == 0x2028
    ||| c as u32 == 0x2029
    ||| c as u32 == 0x202f
    ||| c as u32 == 0x205f
    ||| c as u32 == 0x3000
}

/// Tests the White_Space property.
pub fn is_ws_char(c: char) -> (r: bool)
    ensures
        r == is_trim_ws(c),
{
    let u = c as u32;
    (9 <= u && u <= 13) || u == 32 || u == 0x85 || u == 0xa0 || u == 0x1680 || (0x2000 <= u && u
        <= 0x200a) || u == 0x2028 || u == 0x2029 || u == 0x202f || u == 0x205f || u == 0x3000
}

/// First index at or after `i` holding no whitespace.
pub open spec fn trim_start_idx(s: Seq<char>, i: int) -> int
    decreases s.len() - i,
{
    if 0 <= i < s.len() && is_trim_ws(s[i]) {
        trim_start_idx(s, i + 1)
    } else {
        i
    }
}

/// Last index at or before `j` such that no whitespace stands just
/// before it.
pub open spec fn trim_end_idx(s: Seq<char>, j: int) -> int
    decreases j,
{
    if 0 < j <= s.len() && is_trim_ws(s[j - 1]) {
        trim_end_idx(s, j - 1)
    } else {
        j
    }
}

/// `s` with leading and trailing whitespace removed.
pub open spec fn spec_trim(s: Seq<char>) -> Seq<char> {
    let a = trim_start_idx(s, 0);
    let b = trim_end_idx(s, s.len() as int);
    if a <= b {
        s.subrange(a, b)
    } else {
        Seq::empty()
    }
}

/// Strips leading and trailing whitespace.
pub fn trim_str(s: &str) -> (t: String)
    ensures
        t@ == spec_trim(s@),
{
    let n = s.unicode_len();
    let a = trim_start_exec(s, n);
    let b = trim_end_exec(s, n);
    if a >= b {
        let out = String::new();
        proof {
            assert(s@.subrange(a as int, a as int) =~= Seq::<char>::empty());
        }
        out
    } else {
        s.substring_char(a, b).to_owned()
    }
}

fn trim_start_exec(s: &str, n: usize) -> (a: usize)
    requires
        n == s@.len(),
    ensures
        a as int == trim_start_idx(s@, 0),
        a <= n,
{
    let mut j: usize = 0;
    loop
        invariant
            n == s@.len(),
            j <= n,
            trim_start_idx(s@, 0) == trim_start_idx(s@, j as int),
        decreases n - j,
    {
        if j >= n {
            return j;
        }
        let c = s.get_char(j);
        if !is_ws_char(c) {
            proof {
                assert(trim_start_idx(s@, j as int) == j as int);
            }
            return j;
        }
        j = j + 1;
    }
}

fn trim_end_exec(s: &str, n: usize) -> (b: usize)
    requires
        n == s@.len(),
    ensures
        b as int == trim_end_idx(s@, n as int),
        b <= n,
{
    let mut j: usize = n;
    loop
        invariant
            n == s@.len(),
            j <= n,
            trim_end_idx(s@, n as int) == trim_end_idx(s@, j as int),
        decreases j,
    {
        if j == 0 {
            return j;
        }
        let c = s.get_char(j - 1);
        if !is_ws_char(c) {
            proof {
                assert(trim_end_idx(s@, j as int) == j as int);
            }
            return j;
        }
        j = j - 1;
    }
}

/// The control-socket path for `target`, given its pidfile's contents:
/// `{run_dir}/{target}.{pid}.ctl`, where `pid` is the trimmed contents,
/// not further validated. A pidfile that trims to nothing is a protocol
/// error.
pub fn socket_path_from_pidfile(run_dir: &str, target: &str, pidfile: &str) -> (r: Result<
    String,
    Error,
>)
    ensures
        spec_trim(pidfile@).len() == 0 ==> (r matches Err(e) && e is Protocol),
        spec_trim(pidfile@).len() > 0 ==> (r matches Ok(p) && p@ == spec_path_join(
            run_dir@,
            target@ + "."@ + spec_trim(pidfile@) + ".ctl"@,
        )),
{
    let pid = trim_str(pidfile);
    if pid.as_str().unicode_len() == 0 {
        return Err(Error::Protocol(String::from_str("pidfile is empty")));
    }
    let mut name = String::new();
    name.append(target);
    name.append(".");
    name.append(pid.as_str());
    name.append(".ctl");
    proof {
        assert(name@ =~= target@ + "."@ + spec_trim(pidfile@) + ".ctl"@);
    }
    Ok(path_join(run_dir, name.as_str()))
}

/// The final step of locating a control socket: the computed path must
/// exist on the filesystem (the caller checks and passes `exists`); a
/// missing control socket is a socket error.
pub fn socket_lookup(sock_path: String, exists: bool) -> (r: Result<String, Error>)
    ensures
        exists ==> (r matches Ok(p) && p == sock_path),
        !exists ==> (r matches Err(e) && e is Socket),
{
    if exists {
        Ok(sock_path)
    } else {
        Err(Error::Socket(String::from_str("failed to find control socket for target")))
    }
}

} // verus!
