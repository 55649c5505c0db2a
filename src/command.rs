//! Argument vectors and command lines for the remote-access commands.

use vstd::prelude::*;
use crate::text::{decimal, decimal_string, from_chars, starts_with, to_chars};

verus! {

/// The error of a tunnel request that names no forwarding kind.
#[derive(Debug, Clone, PartialEq, Eq)]
pub struct TunnelModeError {
    pub message: String,
}

impl TunnelModeError {
    /// An error that carries the given message.
    pub fn new(message: &str) -> (r: Self)
        ensures
            r.message@ == message@,
    {
        TunnelModeError { message: String::from_str(message) }
    }

    /// The text shown for the error: `Tunnel Mode Error: <message>`.
    pub fn display_text(&self) -> (r: String)
        ensures
            r@ == "Tunnel Mode Error: "@ + self.message@,
    {
        let mut r = String::from_str("Tunnel Mode Error: ");
        r.append(self.message.as_str());
        r
    }
}

/// A port-forwarding request.
#[derive(Debug, Clone, PartialEq, Eq)]
pub enum TunnelMode {
    /// Forwards `local_port` on this machine to `remote_host:remote_port` seen from the server.
    Local { local_port: u16, remote_host: String, remote_port: u16 },
    /// Forwards `remote_port` on the server to `local_host:local_port` seen from this machine.
    Remote { local_port: u16, local_host: String, remote_port: u16 },
    /// A SOCKS proxy on `local_port`.
    Dynamic { local_port: u16 },
}

/// The token in a copy path that stands for the selected connection.
pub open spec fn con_key() -> Seq<char> {
    seq!['c', 'o', 'n', ':']
}

/// `s` with every occurrence of `con:`, read from left to right, replaced by
/// `rep` (`str::replace`).
pub open spec fn replace_con(s: Seq<char>, rep: Seq<char>) -> Seq<char>
    decreases s.len(),
{
    if s.len() == 0 {
        Seq::empty()
    } else if starts_with(s, con_key()) {
        rep + replace_con(s.skip(4), rep)
    } else {
        seq![s[0]] + replace_con(s.drop_first(), rep)
    }
}

/// `con:` occurs in `s`.
pub open spec fn has_con(s: Seq<char>) -> bool {
    exists|i: int| 0 <= i && i + 4 <= s.len() && #[trigger] s.subrange(i, i + 4) == con_key()
}

/// The strings joined with one space between each two.
pub open spec fn join_space(v: Seq<Seq<char>>) -> Seq<char>
    decreases v.len(),
{
    if v.len() == 0 {
        Seq::empty()
    } else if v.len() == 1 {
        v[0]
    } else {
        join_space(v.drop_last()) + seq![' '] + v.last()
    }
}

/// The views of a sequence of strings.
pub open spec fn string_views(v: Seq<String>) -> Seq<Seq<char>> {
    v.map_values(|s: String| s@)
}

/// The forwarding flags of a tunnel request, each a separate argument.
pub open spec fn forward_args(m: TunnelMode) -> Seq<Seq<char>> {
    match m {
        TunnelMode::Local { local_port, remote_host, remote_port } => seq![
            "-L"@,
            decimal(local_port as nat),
            ":"@,
            remote_host@,
            ":"@,
            decimal(remote_port as nat),
        ],
        TunnelMode::Remote { local_port, local_host, remote_port } => seq![
            "-R"@,
            decimal(remote_port as nat),
            ":"@,
            local_host@,
            ":"@,
            decimal(local_port as nat),
        ],
        TunnelMode::Dynamic { local_port } => seq!["-D"@, decimal(local_port as nat)],
    }
}

/// A copy path with each `con:` replaced by `<host>:`.
pub fn rewrite_copy_path(path: &str, host: &str) -> (r: String)
    ensures
        r@ == replace_con(path@, host@.push(':')),
{
    let s = to_chars(path);
    let mut rep = to_chars(host);
    rep.push(':');
    let con = ['c', 'o', 'n', ':'];
    assert(con@ == con_key());
    let mut out: Vec<char> = Vec::new();
    let mut i: usize = 0;
    assert(s@.skip(0) =~= s@);
    while i < s.len()
        invariant
            i <= s@.len(),
            s@ == path@,
            con@ == con_key(),
            out@ + replace_con(s@.skip(i as int), rep@) == replace_con(path@, rep@),
        decreases s.len() - i,
    {
        let ghost rest = s@.skip(i as int);
        let matched = s.len() - i >= 4 && s[i] == con[0] && s[i + 1] == con[1] && s[i + 2]
            == con[2] && s[i + 3] == con[3];
        if matched {
            assert(rest.subrange(0, 4) =~= con_key());
            assert(rest.skip(4) =~= s@.skip(i + 4));
            let mut j: usize = 0;
            let ghost out0 = out@;
            while j < rep.len()
                invariant
                    j <= rep@.len(),
                    out@ == out0 + rep@.subrange(0, j as int),
                decreases rep.len() - j,
            {
                out.push(rep[j]);
                j = j + 1;
                assert(out@ =~= out0 + rep@.subrange(0, j as int));
            }
            assert(rep@.subrange(0, rep@.len() as int) =~= rep@);
            assert(out@ + replace_con(s@.skip(i + 4), rep@) =~= out0 + (rep@ + replace_con(
                rest.skip(4),
                rep@,
            )));
            i = i + 4;
        } else {
            assert(!starts_with(rest, con_key())) by {
                if starts_with(rest, con_key()) {
                    assert(rest.subrange(0, 4)[0] == rest[0]);
                    assert(rest.subrange(0, 4)[1] == rest[1]);
                    assert(rest.subrange(0, 4)[2] == rest[2]);
                    assert(rest.subrange(0, 4)[3] == rest[3]);
                }
            }
            assert(rest.drop_first() =~= s@.skip(i + 1));
            let ghost out0 = out@;
            out.push(s[i]);
            assert(out@ + replace_con(s@.skip(i + 1), rep@) =~= out0 + (seq![rest[0]]
                + replace_con(rest.drop_first(), rep@)));
            i = i + 1;
        }
    }
    assert(s@.skip(i as int) =~= Seq::<char>::empty());
    assert(out@ + Seq::<char>::empty() =~= out@);
    from_chars(&out)
}

/// A path without `con:` is left as it is.
pub proof fn lemma_replace_con_absent(s: Seq<char>, rep: Seq<char>)
    requires
        !has_con(s),
    ensures
        replace_con(s, rep) == s,
    decreases s.len(),
{
    if s.len() > 0 {
        if starts_with(s, con_key()) {
            assert(s.subrange(0, 0int + 4) == con_key());
        }
        assert(!has_con(s.drop_first())) by {
            if has_con(s.drop_first()) {
                let i = choose|i: int|
                    0 <= i && i + 4 <= s.drop_first().len() && #[trigger] s.drop_first().subrange(
                        i,
                        i + 4,
                    ) == con_key();
                assert(s.subrange(i + 1, i + 1 + 4) =~= s.drop_first().subrange(i, i + 4));
            }
        }
        lemma_replace_con_absent(s.drop_first(), rep);
        assert(seq![s[0]] + s.drop_first() =~= s);
    }
}

/// The arguments of a copy: both paths with `con:` rewritten to `<host>:`.
pub fn copy_args(host: &str, from: &str, to: &str) -> (r: Vec<String>)
    ensures
        string_views(r@) == seq![
            replace_con(from@, host@.push(':')),
            replace_con(to@, host@.push(':')),
        ],
{
    let mut r: Vec<String> = Vec::new();
    r.push(rewrite_copy_path(from, host));
    r.push(rewrite_copy_path(to, host));
    assert(string_views(r@) =~= seq![
        replace_con(from@, host@.push(':')),
        replace_con(to@, host@.push(':')),
    ]);
    r
}

/// Appends copies of the strings of `extra`.
fn push_all(out: &mut Vec<String>, extra: &Vec<String>)
    ensures
        string_views(final(out)@) == string_views(old(out)@) + string_views(extra@),
{
    let mut i: usize = 0;
    let ghost out0 = string_views(out@);
    while i < extra.len()
        invariant
            i <= extra@.len(),
            string_views(out@) == out0 + string_views(extra@).subrange(0, i as int),
        decreases extra.len() - i,
    {
        let ghost prev = out@;
        out.push(extra[i].clone());
        assert(out@ == prev.push(extra@[i as int]));
        assert(string_views(out@) =~= string_views(prev).push(extra@[i as int]@));
        i = i + 1;
        assert(string_views(out@) =~= out0 + string_views(extra@).subrange(0, i as int));
    }
    assert(string_views(extra@).subrange(0, i as int) =~= string_views(extra@));
}

/// The arguments of an interactive session: the host, then the extra arguments.
pub fn use_args(host: &str, extra: &Vec<String>) -> (r: Vec<String>)
    ensures
        string_views(r@) == seq![host@] + string_views(extra@),
{
    let mut r: Vec<String> = Vec::new();
    r.push(String::from_str(host));
    assert(string_views(r@) =~= seq![host@]);
    push_all(&mut r, extra);
    r
}

/// The extra arguments joined with single spaces.
pub fn join_args(extra: &Vec<String>) -> (r: String)
    ensures
        r@ == join_space(string_views(extra@)),
{
    let mut r = String::new();
    let mut i: usize = 0;
    while i < extra.len()
        invariant
            i <= extra@.len(),
            r@ == join_space(string_views(extra@).subrange(0, i as int)),
        decreases extra.len() - i,
    {
        let ghost v = string_views(extra@).subrange(0, i + 1);
        assert(v.drop_last() =~= string_views(extra@).subrange(0, i as int));
        if i > 0 {
            r.append(" ");
            proof {
                reveal_strlit(" ");
            }
        } else {
            assert(string_views(extra@).subrange(0, 0) =~= Seq::<Seq<char>>::empty());
        }
        r.append(extra[i].as_str());
        assert(r@ =~= join_space(v));
        i = i + 1;
    }
    assert(string_views(extra@).subrange(0, i as int) =~= string_views(extra@));
    r
}

/// The command line placed on the clipboard: `<program> <host> <extra joined by spaces>`.
pub fn export_line(program: &str, host: &str, extra: &Vec<String>) -> (r: String)
    ensures
        r@ == program@ + seq![' '] + host@ + seq![' '] + join_space(string_views(extra@)),
{
    proof {
        reveal_strlit(" ");
    }
    let mut r = String::from_str(program);
    r.append(" ");
    r.append(host);
    r.append(" ");
    let j = join_args(extra);
    r.append(j.as_str());
    assert(r@ =~= program@ + seq![' '] + host@ + seq![' '] + join_space(string_views(extra@)));
    r
}

/// The forwarding flags of a tunnel request.
pub fn forward_flags(mode: &TunnelMode) -> (r: Vec<String>)
    ensures
        string_views(r@) == forward_args(*mode),
{
    let mut r: Vec<String> = Vec::new();
    match mode {
        TunnelMode::Local { local_port, remote_host, remote_port } => {
            r.push(String::from_str("-L"));
            r.push(decimal_string(*local_port as u64));
            r.push(String::from_str(":"));
            r.push(remote_host.clone());
            r.push(String::from_str(":"));
            r.push(decimal_string(*remote_port as u64));
        },
        TunnelMode::Remote { local_port, local_host, remote_port } => {
            r.push(String::from_str("-R"));
            r.push(decimal_string(*remote_port as u64));
            r.push(String::from_str(":"));
            r.push(local_host.clone());
            r.push(String::from_str(":"));
            r.push(decimal_string(*local_port as u64));
        },
        TunnelMode::Dynamic { local_port } => {
            r.push(String::from_str("-D"));
            r.push(decimal_string(*local_port as u64));
        },
    }
    assert(string_views(r@) =~= forward_args(*mode));
    r
}

/// The arguments of a tunnel: the forwarding flags, the host, then the extra
/// arguments; an error when no forwarding kind was given.
pub fn tunnel_args(host: &str, mode: &Option<TunnelMode>, extra: &Vec<String>) -> (r: Result<
    Vec<String>,
    TunnelModeError,
>)
    ensures
        r is Err <==> mode is None,
        r matches Err(e) ==> e.message@ == "no tunnel mode selected"@,
        r matches Ok(v) ==> string_views(v@) == forward_args(mode->Some_0) + seq![host@]
            + string_views(extra@),
{
    match mode {
        None => Err(TunnelModeError::new("no tunnel mode selected")),
        Some(m) => {
            let mut r = forward_flags(m);
            let ghost f = string_views(r@);
            r.push(String::from_str(host));
            assert(string_views(r@) =~= f + seq![host@]);
            push_all(&mut r, extra);
            Ok(r)
        },
    }
}

/// A remote-access request on a resolved host, with the program to run.
pub enum Action {
    /// An interactive session: `program host extra...`.
    Use { program: String, args: Vec<String> },
    /// The session's command line, for the clipboard.
    Export { program: String, args: Vec<String> },
    /// A file copy; `con:` in either path stands for the host.
    Copy { program: String, from: String, to: String },
    /// A port-forwarding session.
    Tunnel { program: String, mode: Option<TunnelMode>, args: Vec<String> },
}

/// What a request comes to: a process to start, or a line for the clipboard.
pub enum Invocation {
    Spawn { program: String, args: Vec<String> },
    Clipboard { text: String },
}

/// The invocation of a request on a resolved host; an error for a tunnel
/// request without a forwarding kind.
pub fn build_invocation(host: &str, action: &Action) -> (r: Result<Invocation, TunnelModeError>)
    ensures
        match action {
            Action::Use { program, args } => r matches Ok(Invocation::Spawn { program: p, args: a })
                && p@ == program@ && string_views(a@) == seq![host@] + string_views(args@),
            Action::Export { program, args } => r matches Ok(Invocation::Clipboard { text })
                && text@ == program@ + seq![' '] + host@ + seq![' '] + join_space(
                string_views(args@),
            ),
            Action::Copy { program, from, to } => r matches Ok(
                Invocation::Spawn { program: p, args: a },
            ) && p@ == program@ && string_views(a@) == seq![
                replace_con(from@, host@.push(':')),
                replace_con(to@, host@.push(':')),
            ],
            Action::Tunnel { program, mode, args } => match mode {
                None => r matches Err(e) && e.message@ == "no tunnel mode selected"@,
                Some(m) => r matches Ok(Invocation::Spawn { program: p, args: a }) && p@
                    == program@ && string_views(a@) == forward_args(*m) + seq![host@]
                    + string_views(args@),
            },
        },
{
    match action {
        Action::Use { program, args } => Ok(
            Invocation::Spawn { program: program.clone(), args: use_args(host, args) },
        ),
        Action::Export { program, args } => Ok(
            Invocation::Clipboard { text: export_line(program.as_str(), host, args) },
        ),
        Action::Copy { program, from, to } => Ok(
            Invocation::Spawn {
                program: program.clone(),
                args: copy_args(host, from.as_str(), to.as_str()),
            },
        ),
        Action::Tunnel { program, mode, args } => match tunnel_args(host, mode, args) {
            Ok(a) => Ok(Invocation::Spawn { program: program.clone(), args: a }),
            Err(e) => Err(e),
        },
    }
}

} // verus!
