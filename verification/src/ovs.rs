//! OVS unixctl interface: command wrappers over the RPC client.
//!
//! The wrappers call the daemon's common commands and parse its textual
//! replies. The parsers are specified exactly; what the daemon answers
//! is, of course, its own affair.

use vstd::prelude::*;
use vstd::string::StrSliceExecFns;

use crate::codec;
use crate::error::Error;
use crate::jsonrpc::{require_result, spec_params_text, Client, Transport};
use crate::locator::{is_trim_ws, is_ws_char, spec_trim, trim_str};

verus! {

// ---------------------------------------------------------------------------
// The command listing
// ---------------------------------------------------------------------------

/// First index at or after `i` holding `'\n'` (or the length).
pub open spec fn find_nl(s: Seq<char>, i: int) -> int
    decreases s.len() - i,
{
    if 0 <= i < s.len() {
        if s[i] == '\n' {
            i
        } else {
            find_nl(s, i + 1)
        }
    } else {
        i
    }
}

proof fn lemma_find_nl_bounds(s: Seq<char>, i: int)
    requires
        0 <= i <= s.len(),
    ensures
        i <= find_nl(s, i) <= s.len(),
        find_nl(s, i) < s.len() ==> s[find_nl(s, i)] == '\n',
    decreases s.len() - i,
{
    if i < s.len() && s[i] != '\n' {
        lemma_find_nl_bounds(s, i + 1);
    }
}

/// A line as the daemon wrote it: a carriage return just before the
/// newline is dropped.
pub open spec fn strip_cr(l: Seq<char>) -> Seq<char> {
    if l.len() > 0 && l.last() == '\r' {
        l.drop_last()
    } else {
        l
    }
}

/// The lines of `s` from `i` on: split at `'\n'`, no final empty line
/// for a trailing newline.
pub open spec fn spec_lines(s: Seq<char>, i: int) -> Seq<Seq<char>>
    decreases s.len() - i,
        via spec_lines_dec
{
    if !(0 <= i < s.len()) {
        Seq::empty()
    } else {
        let j = find_nl(s, i);
        let line = strip_cr(s.subrange(i, j));
        if j >= s.len() {
            seq![line]
        } else {
            seq![line] + spec_lines(s, j + 1)
        }
    }
}

#[via_fn]
proof fn spec_lines_dec(s: Seq<char>, i: int) {
    if 0 <= i < s.len() {
        lemma_find_nl_bounds(s, i);
    }
}

/// First index at or after `i` holding whitespace (or the length).
pub open spec fn find_ws_idx(s: Seq<char>, i: int) -> int
    decreases s.len() - i,
{
    if 0 <= i < s.len() {
        if is_trim_ws(s[i]) {
            i
        } else {
            find_ws_idx(s, i + 1)
        }
    } else {
        i
    }
}

/// One line of the listing as a command and its argument synopsis: the
/// trimmed line is split at its first whitespace, and the remainder is
/// trimmed again; a line without whitespace is all command.
pub open spec fn spec_split_command(line: Seq<char>) -> (Seq<char>, Seq<char>) {
    let t = spec_trim(line);
    let k = find_ws_idx(t, 0);
    if k >= t.len() {
        (t, Seq::empty())
    } else {
        (t.subrange(0, k), spec_trim(t.subrange(k + 1, t.len() as int)))
    }
}

/// The whole command listing: the banner line, then one command with
/// its arguments per line.
pub open spec fn spec_parse_commands(s: Seq<char>) -> Option<Seq<(Seq<char>, Seq<char>)>> {
    let p = "The available commands are:\n"@;
    if codec::lit_at(s, 0, p) {
        Some(spec_lines(s, p.len() as int).map_values(|l: Seq<char>| spec_split_command(l)))
    } else {
        None
    }
}

fn find_nl_exec(s: &str, i: usize) -> (r: usize)
    requires
        i as int <= s@.len(),
    ensures
        r as int == find_nl(s@, i as int),
        i <= r,
        r as int <= s@.len(),
{
    let n = s.unicode_len();
    let mut j = i;
    loop
        invariant
            n == s@.len(),
            i <= j <= n,
            find_nl(s@, i as int) == find_nl(s@, j as int),
        decreases n - j,
    {
        if j >= n {
            return j;
        }
        if s.get_char(j) == '\n' {
            return j;
        }
        j = j + 1;
    }
}

fn find_ws_exec(s: &str, i: usize) -> (r: usize)
    requires
        i as int <= s@.len(),
    ensures
        r as int == find_ws_idx(s@, i as int),
        i <= r,
        r as int <= s@.len(),
{
    let n = s.unicode_len();
    let mut j = i;
    loop
        invariant
            n == s@.len(),
            i <= j <= n,
            find_ws_idx(s@, i as int) == find_ws_idx(s@, j as int),
        decreases n - j,
    {
        if j >= n {
            return j;
        }
        let c = s.get_char(j);
        if is_ws_char(c) {
            return j;
        }
        j = j + 1;
    }
}

fn split_command_line(line: &str) -> (r: (String, String))
    ensures
        r.0@ == spec_split_command(line@).0,
        r.1@ == spec_split_command(line@).1,
{
    let t = trim_str(line);
    let tn = t.as_str().unicode_len();
    let k = find_ws_exec(t.as_str(), 0);
    if k >= tn {
        (t, String::new())
    } else {
        let cmd = t.as_str().substring_char(0, k).to_owned();
        let args = trim_str(t.as_str().substring_char(k + 1, tn));
        (cmd, args)
    }
}

/// Parses the `list-commands` reply: the banner line, then one command
/// and its argument synopsis per line. A reply without the banner is a
/// protocol error.
pub fn parse_command_listing(s: &str) -> (r: Result<Vec<(String, String)>, Error>)
    ensures
        match spec_parse_commands(s@) {
            Some(entries) => r matches Ok(v) && v@.len() == entries.len() && (forall|k: int|
                0 <= k < entries.len() ==> v@[k].0@ == entries[k].0 && v@[k].1@ == entries[k].1),
            None => r matches Err(e) && e is Protocol,
        },
{
    let n = s.unicode_len();
    let p = "The available commands are:\n";
    if !codec::lit_match(s, 0, p) {
        return Err(Error::Protocol(String::from_str("unexpected response format")));
    }
    let plen = p.unicode_len();
    let ghost entries = spec_parse_commands(s@)->0;
    let ghost f = |l: Seq<char>| spec_split_command(l);
    let mut out: Vec<(String, String)> = Vec::new();
    let mut i = plen;
    proof {
        assert(entries == spec_lines(s@, plen as int).map_values(f));
    }
    loop
        invariant
            n == s@.len(),
            i as int <= s@.len(),
            f == (|l: Seq<char>| spec_split_command(l)),
            spec_parse_commands(s@) is Some,
            entries == spec_parse_commands(s@)->0,
            entries.len() == out@.len() + spec_lines(s@, i as int).map_values(f).len(),
            entries =~= out@.map_values(|e: (String, String)| (e.0@, e.1@)) + spec_lines(
                s@,
                i as int,
            ).map_values(f),
            forall|k: int| 0 <= k < out@.len() ==> entries[k].0 == out@[k].0@ && entries[k].1
                == out@[k].1@,
        decreases n - i,
    {
        if i >= n {
            proof {
                assert(spec_lines(s@, i as int) == Seq::<Seq<char>>::empty());
                assert(entries.len() == out@.len());
            }
            return Ok(out);
        }
        let j = find_nl_exec(s, i);
        let line = if j > i && s.get_char(j - 1) == '\r' {
            s.substring_char(i, j - 1)
        } else {
            s.substring_char(i, j)
        };
        proof {
            if j > i && s@[j as int - 1] == '\r' {
                assert(s@.subrange(i as int, j as int - 1) =~= strip_cr(
                    s@.subrange(i as int, j as int),
                ));
            }
        }
        let entry = split_command_line(line);
        let ghost outold = out@;
        out.push(entry);
        proof {
            let rest = spec_lines(s@, j as int + 1);
            let cur = spec_lines(s@, i as int);
            if (j as int) < s@.len() {
                assert(cur == seq![strip_cr(s@.subrange(i as int, j as int))] + rest);
            } else {
                assert(cur == seq![strip_cr(s@.subrange(i as int, j as int))]);
            }
            assert(cur.map_values(f)[0] == f(strip_cr(s@.subrange(i as int, j as int))));
            assert(out@.map_values(|e: (String, String)| (e.0@, e.1@)) =~= outold.map_values(
                |e: (String, String)| (e.0@, e.1@),
            ).push((entry.0@, entry.1@)));
            if (j as int) < s@.len() {
                assert(entries =~= out@.map_values(|e: (String, String)| (e.0@, e.1@))
                    + rest.map_values(f));
            } else {
                assert(entries =~= out@.map_values(|e: (String, String)| (e.0@, e.1@))
                    + Seq::<(Seq<char>, Seq<char>)>::empty());
            }
            assert(forall|k: int| 0 <= k < out@.len() ==> entries[k].0 == out@[k].0@
                && entries[k].1 == out@[k].1@);
        }
        if j >= n {
            proof {
                assert(entries.len() == out@.len());
            }
            return Ok(out);
        }
        i = j + 1;
    }
}

// ---------------------------------------------------------------------------
// The version banner
// ---------------------------------------------------------------------------

/// First index at or after `i` holding `'.'` or `'-'` (or the length).
pub open spec fn find_sep(s: Seq<char>, i: int) -> int
    decreases s.len() - i,
{
    if 0 <= i < s.len() {
        if s[i] == '.' || s[i] == '-' {
            i
        } else {
            find_sep(s, i + 1)
        }
    } else {
        i
    }
}

proof fn lemma_find_sep_bounds(s: Seq<char>, i: int)
    requires
        0 <= i <= s.len(),
    ensures
        i <= find_sep(s, i) <= s.len(),
    decreases s.len() - i,
{
    if i < s.len() && !(s[i] == '.' || s[i] == '-') {
        lemma_find_sep_bounds(s, i + 1);
    }
}

/// `s` split at `'.'` and `'-'` into at most four pieces; the fourth
/// keeps its separators.
pub open spec fn spec_split4(s: Seq<char>) -> Seq<Seq<char>> {
    let a = find_sep(s, 0);
    if a >= s.len() {
        seq![s]
    } else {
        let b = find_sep(s, a + 1);
        if b >= s.len() {
            seq![s.subrange(0, a), s.subrange(a + 1, s.len() as int)]
        } else {
            let c = find_sep(s, b + 1);
            if c >= s.len() {
                seq![s.subrange(0, a), s.subrange(a + 1, b), s.subrange(b + 1, s.len() as int)]
            } else {
                seq![
                    s.subrange(0, a),
                    s.subrange(a + 1, b),
                    s.subrange(b + 1, c),
                    s.subrange(c + 1, s.len() as int),
                ]
            }
        }
    }
}

/// Every character of `s[i..j)` is a decimal digit.
pub open spec fn all_digits(s: Seq<char>, i: int, j: int) -> bool {
    forall|k: int| i <= k < j ==> codec::is_digit(#[trigger] s[k])
}

/// `s` read as `u32::from_str` reads it: an optional leading `'+'`,
/// then one or more digits, rejecting values beyond `u32::MAX`.
pub open spec fn spec_parse_u32(s: Seq<char>) -> Option<u32> {
    let start: int = if s.len() > 0 && s[0] == '+' {
        1
    } else {
        0
    };
    if !(start < s.len()) {
        None
    } else if !all_digits(s, start, s.len() as int) {
        None
    } else if codec::digits_val(s, start, s.len() as int, 0) > u32::MAX {
        None
    } else {
        Some(codec::digits_val(s, start, s.len() as int, 0) as u32)
    }
}

fn parse_u32_str(s: &str) -> (r: Option<u32>)
    ensures
        r == spec_parse_u32(s@),
{
    let n = s.unicode_len();
    let start: usize = if n > 0 && s.get_char(0) == '+' {
        1
    } else {
        0
    };
    if start >= n {
        return None;
    }
    let mut acc: u32 = 0;
    let mut k = start;
    while k < n
        invariant
            n == s@.len(),
            start <= k <= n,
            start == (if s@.len() > 0 && s@[0] == '+' {
                1int
            } else {
                0int
            }),
            start < n,
            all_digits(s@, start as int, k as int),
            acc as nat == codec::digits_val(s@, start as int, k as int, 0),
        decreases n - k,
    {
        let c = s.get_char(k);
        let u = c as u32;
        if !(48 <= u && u <= 57) {
            proof {
                assert(!codec::is_digit(s@[k as int]));
                assert(!all_digits(s@, start as int, s@.len() as int));
            }
            return None;
        }
        let d = u - 48;
        proof {
            codec::lemma_digits_val_snoc(s@, start as int, k as int, 0);
        }
        let next = match acc.checked_mul(10) {
            Some(m) => m.checked_add(d),
            None => None,
        };
        match next {
            Some(v) => {
                acc = v;
            },
            None => {
                proof {
                    codec::lemma_digits_val_compose(
                        s@,
                        start as int,
                        k as int + 1,
                        s@.len() as int,
                        0,
                    );
                    codec::lemma_digits_val_ge_acc(
                        s@,
                        k as int + 1,
                        s@.len() as int,
                        codec::digits_val(s@, start as int, k as int + 1, 0),
                    );
                }
                return None;
            },
        }
        k = k + 1;
    }
    Some(acc)
}

/// The version banner parsed: the prefix `ovs-vswitchd (Open vSwitch) `,
/// then `x.y.z` or `x.y.z` plus a separator and a patch tail. Anything
/// else, or a piece that does not read as a `u32`, fails.
pub open spec fn spec_parse_version(s: Seq<char>) -> Option<(u32, u32, u32, Seq<char>)> {
    let p = "ovs-vswitchd (Open vSwitch) "@;
    if !codec::lit_at(s, 0, p) {
        None
    } else {
        let parts = spec_split4(s.skip(p.len() as int));
        if parts.len() == 3 {
            match (spec_parse_u32(parts[0]), spec_parse_u32(parts[1]), spec_parse_u32(parts[2])) {
                (Some(x), Some(y), Some(z)) => Some((x, y, z, Seq::empty())),
                _ => None,
            }
        } else if parts.len() == 4 {
            match (spec_parse_u32(parts[0]), spec_parse_u32(parts[1]), spec_parse_u32(parts[2])) {
                (Some(x), Some(y), Some(z)) => Some((x, y, z, parts[3])),
                _ => None,
            }
        } else {
            None
        }
    }
}

/// Parses the `version` reply, exactly as [`spec_parse_version`]
/// describes; any other shape is a protocol error.
pub fn parse_version_banner(s: &str) -> (r: Result<(u32, u32, u32, String), Error>)
    ensures
        match spec_parse_version(s@) {
            Some((x, y, z, patch)) => r matches Ok(v) && v.0 == x && v.1 == y && v.2 == z && v.3@
                == patch,
            None => r matches Err(e) && e is Protocol,
        },
{
    let n = s.unicode_len();
    let p = "ovs-vswitchd (Open vSwitch) ";
    if !codec::lit_match(s, 0, p) {
        return Err(Error::Protocol(String::from_str("unexpected version string")));
    }
    let plen = p.unicode_len();
    let rest = s.substring_char(plen, n);
    proof {
        assert(rest@ =~= s@.skip(plen as int));
    }
    let rn = rest.unicode_len();
    let a = find_sep_exec(rest, 0);
    if a >= rn {
        return Err(Error::Protocol(String::from_str("failed to unpack version string")));
    }
    let b = find_sep_exec(rest, a + 1);
    let p1 = rest.substring_char(0, a);
    if b >= rn {
        return Err(Error::Protocol(String::from_str("failed to unpack version string")));
    }
    let c = find_sep_exec(rest, b + 1);
    let p2 = rest.substring_char(a + 1, b);
    if c >= rn {
        let p3 = rest.substring_char(b + 1, rn);
        match (parse_u32_str(p1), parse_u32_str(p2), parse_u32_str(p3)) {
            (Some(x), Some(y), Some(z)) => Ok((x, y, z, String::new())),
            _ => Err(Error::Protocol(String::from_str("failed to parse version number"))),
        }
    } else {
        let p3 = rest.substring_char(b + 1, c);
        let p4 = rest.substring_char(c + 1, rn);
        match (parse_u32_str(p1), parse_u32_str(p2), parse_u32_str(p3)) {
            (Some(x), Some(y), Some(z)) => Ok((x, y, z, p4.to_owned())),
            _ => Err(Error::Protocol(String::from_str("failed to parse version number"))),
        }
    }
}

fn find_sep_exec(s: &str, i: usize) -> (r: usize)
    requires
        i as int <= s@.len(),
    ensures
        r as int == find_sep(s@, i as int),
        i <= r,
        r as int <= s@.len(),
{
    let n = s.unicode_len();
    let mut j = i;
    loop
        invariant
            n == s@.len(),
            i <= j <= n,
            find_sep(s@, i as int) == find_sep(s@, j as int),
        decreases n - j,
    {
        if j >= n {
            return j;
        }
        let c = s.get_char(j);
        if c == '.' || c == '-' {
            return j;
        }
        j = j + 1;
    }
}

// ---------------------------------------------------------------------------
// The controller
// ---------------------------------------------------------------------------

/// OVS Unix control interface.
///
/// It allows the execution of well-known control commands against a
/// daemon reached through the given transport.
pub struct OvsUnixCtl<T: Transport> {
    client: Client<T>,
}

impl<T: Transport> OvsUnixCtl<T> {
    /// The request ids the underlying client has issued.
    pub closed spec fn ids(self) -> Seq<usize> {
        self.client.ids()
    }

    /// The id the next request will carry.
    pub closed spec fn next_id(self) -> usize {
        self.client.next_id()
    }

    /// Whether the underlying client has connected its transport; set
    /// by the first exchange and never reset.
    pub closed spec fn is_connected(self) -> bool {
        self.client.is_connected()
    }

    /// The underlying client is well-formed.
    pub closed spec fn wf(self) -> bool {
        self.client.wf()
    }

    /// Another request id can still be allocated.
    pub closed spec fn can_issue(self) -> bool {
        self.client.can_issue()
    }

    /// Creates a new OvsUnixCtl over the given transport; nothing is
    /// sent until the first command.
    pub fn new(transport: T) -> (s: Self)
        ensures
            s.wf(),
            s.can_issue(),
            s.ids() == Seq::<usize>::empty(),
            s.next_id() == 1,
            !s.is_connected(),
    {
        OvsUnixCtl { client: Client::new(transport) }
    }

    /// Whether another request id can still be allocated; true until
    /// `usize` is exhausted.
    pub fn can_allocate(&self) -> (r: bool)
        ensures
            r == self.can_issue(),
    {
        self.client.can_allocate()
    }

    /// Runs the common `list-commands` command and returns the list of
    /// commands and their arguments, as [`spec_parse_commands`] reads
    /// the daemon's listing. A reply with no result, or in an
    /// unexpected format, is a protocol error; a daemon-reported error
    /// is a `Command` failure naming this method.
    pub fn list_commands(&mut self) -> (r: Result<Vec<(String, String)>, Error>)
        requires
            old(self).wf(),
            old(self).can_issue(),
        ensures
            final(self).wf(),
            final(self).ids() == old(self).ids().push(old(self).next_id()),
            final(self).next_id() == old(self).next_id() + 1,
            old(self).is_connected() ==> final(self).is_connected(),
            r matches Ok(v) ==> (exists|t: Seq<char>|
                #[trigger] spec_parse_commands(t) matches Some(es) && v@.len() == es.len() && (
                forall|k: int| 0 <= k < es.len() ==> v@[k].0@ == es[k].0 && v@[k].1@ == es[k].1)),
            r matches Err(e) ==> (e matches Error::Command { cmd, params, error } ==> cmd@
                == "list-commands"@ && params@ == Seq::<char>::empty()),
    {
        let response = match self.client.call("list-commands") {
            Ok(x) => x,
            Err(e) => {
                return Err(e);
            },
        };
        let text = match require_result(response) {
            Ok(t) => t,
            Err(e) => {
                return Err(e);
            },
        };
        let listing = parse_command_listing(text.as_str());
        proof {
            if listing is Ok {
                assert(spec_parse_commands(text@) is Some);
            }
        }
        listing
    }

    /// Retrieves the version of the running daemon, as
    /// [`spec_parse_version`] reads its banner. A reply with no result,
    /// or a banner in an unexpected shape, is a protocol error; a
    /// daemon-reported error is a `Command` failure naming this method.
    pub fn version(&mut self) -> (r: Result<(u32, u32, u32, String), Error>)
        requires
            old(self).wf(),
            old(self).can_issue(),
        ensures
            final(self).wf(),
            final(self).ids() == old(self).ids().push(old(self).next_id()),
            final(self).next_id() == old(self).next_id() + 1,
            old(self).is_connected() ==> final(self).is_connected(),
            r matches Ok(v) ==> (exists|t: Seq<char>| #[trigger] spec_parse_version(t) == Some(
                (v.0, v.1, v.2, v.3@),
            )),
            r matches Err(e) ==> (e matches Error::Command { cmd, params, error } ==> cmd@
                == "version"@ && params@ == Seq::<char>::empty()),
    {
        let response = match self.client.call("version") {
            Ok(x) => x,
            Err(e) => {
                return Err(e);
            },
        };
        let text = match require_result(response) {
            Ok(t) => t,
            Err(e) => {
                return Err(e);
            },
        };
        let parsed = parse_version_banner(text.as_str());
        proof {
            if parsed is Ok {
                let v = parsed->Ok_0;
                assert(spec_parse_version(text@) == Some((v.0, v.1, v.2, v.3@)));
            }
        }
        parsed
    }

    /// Runs an arbitrary command and returns its result text, if any:
    /// the result field of the correlated, error-free response, handed
    /// through unchanged (`None` when the daemon sent none). A reply
    /// whose error field is present becomes a `Command` error carrying
    /// this command and these parameters.
    pub fn run(&mut self, cmd: &str, params: Vec<String>) -> (r: Result<Option<String>, Error>)
        requires
            old(self).wf(),
            old(self).can_issue(),
        ensures
            final(self).wf(),
            final(self).ids() == old(self).ids().push(old(self).next_id()),
            final(self).next_id() == old(self).next_id() + 1,
            old(self).is_connected() ==> final(self).is_connected(),
            r matches Err(e) ==> (e matches Error::Command { cmd: c, params: p, error } ==> c@
                == cmd@ && p@ == spec_params_text(params.deep_view())),
    {
        let response = match self.client.call_params(cmd, params) {
            Ok(x) => x,
            Err(e) => {
                return Err(e);
            },
        };
        Ok(response.result)
    }
}

} // verus!
