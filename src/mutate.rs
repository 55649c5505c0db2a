//! Edits of the configuration text: a new host block, the removal of one.

use vstd::prelude::*;
use crate::config::host_key;
use crate::text::{
    concat_lines, decimal, decimal_string, from_chars, has_prefix, lemma_raw_lines_concat,
    lemma_raw_lines_line, lemma_raw_lines_wf, parse_index, parse_usize, raw_lines, skip_chars,
    split_raw_lines, starts_with, strip_cr, to_chars, trim, trim_chars, views,
};

verus! {

/// The lines, each ended by `'\n'`.
pub open spec fn join_lines(ls: Seq<Seq<char>>) -> Seq<char>
    decreases ls.len(),
{
    if ls.len() == 0 {
        Seq::empty()
    } else {
        join_lines(ls.drop_last()) + ls.last() + seq!['\n']
    }
}

/// The lines written for a new host block, after a blank separator line.
pub open spec fn entry_lines(
    host: Seq<char>,
    host_name: Seq<char>,
    user: Seq<char>,
    port: nat,
    identity_file: Option<Seq<char>>,
    identities_only: bool,
) -> Seq<Seq<char>> {
    let base = seq![
        Seq::empty(),
        "Host "@ + host,
        "    HostName "@ + host_name,
        "    user "@ + user,
        "    port "@ + decimal(port),
    ];
    let with_identity = match identity_file {
        Some(f) => base.push("    IdentityFile "@ + f),
        None => base,
    };
    if identities_only {
        with_identity.push("    IdentityFilesOnly yes"@)
    } else {
        with_identity
    }
}

/// The number of lines that open a host block (untrimmed, as the file has them).
pub open spec fn host_count(lines: Seq<Seq<char>>) -> nat
    decreases lines.len(),
{
    if lines.len() == 0 {
        0
    } else if starts_with(lines.last(), host_key()) {
        host_count(lines.drop_last()) + 1
    } else {
        host_count(lines.drop_last())
    }
}

/// The lines outside block `index`: block b runs from the (b + 1)-th `Host`
/// line up to the next `Host` line or the end.
pub open spec fn without_block(lines: Seq<Seq<char>>, index: nat) -> Seq<Seq<char>>
    decreases lines.len(),
{
    if lines.len() == 0 {
        Seq::empty()
    } else if host_count(lines) == index + 1 {
        without_block(lines.drop_last(), index)
    } else {
        without_block(lines.drop_last(), index).push(lines.last())
    }
}

/// The alias named by the `Host` line of block `index`, if there is such a block.
pub open spec fn block_alias(lines: Seq<Seq<char>>, index: nat) -> Option<Seq<char>>
    decreases lines.len(),
{
    if lines.len() == 0 {
        None
    } else if starts_with(lines.last(), host_key()) && host_count(lines) == index + 1 {
        Some(trim(lines.last().skip(5)))
    } else {
        block_alias(lines.drop_last(), index)
    }
}

/// The text of the configuration with block `index` removed; every other
/// line is kept with its own ending.
pub open spec fn delete_text(text: Seq<char>, index: nat) -> Seq<char> {
    concat_lines(without_block(raw_lines(text), index))
}

/// An answer line without its ending: one `'\n'`, then one `'\r'` before it.
pub open spec fn line_content(s: Seq<char>) -> Seq<char> {
    if s.len() > 0 && s.last() == '\n' {
        strip_cr(s.drop_last())
    } else {
        s
    }
}

/// The outcome of removing one host block: the rewritten text, and the alias
/// of the block removed (none when no block has that index).
pub struct Deletion {
    pub text: String,
    pub host: Option<String>,
}

proof fn lemma_join_push(ls: Seq<Seq<char>>, l: Seq<char>)
    ensures
        join_lines(ls.push(l)) == join_lines(ls) + l + seq!['\n'],
{
    assert(ls.push(l).drop_last() =~= ls);
}

/// Appends the characters of `s`.
fn push_chars(out: &mut Vec<char>, s: &[char])
    ensures
        final(out)@ == old(out)@ + s@,
{
    let mut i: usize = 0;
    let ghost out0 = out@;
    while i < s.len()
        invariant
            i <= s@.len(),
            out@ == out0 + s@.subrange(0, i as int),
        decreases s.len() - i,
    {
        out.push(s[i]);
        i = i + 1;
        assert(out@ =~= out0 + s@.subrange(0, i as int));
    }
    assert(s@.subrange(0, i as int) =~= s@);
}

/// Appends one line and its `'\n'`.
fn push_line(out: &mut String, line: &str)
    ensures
        final(out)@ == old(out)@ + line@ + seq!['\n'],
{
    proof {
        reveal_strlit("\n");
    }
    out.append(line);
    out.append("\n");
}

/// The text appended to the configuration for a new host block: a blank
/// separator line, then `Host`, `HostName`, `user` and `port`, then
/// `IdentityFile` if one is given and `IdentityFilesOnly yes` if asked for.
pub fn entry_text(
    host: &str,
    host_name: &str,
    user: &str,
    port: u32,
    identity_file: &Option<String>,
    identities_only: bool,
) -> (r: String)
    ensures
        r@ == join_lines(
            entry_lines(
                host@,
                host_name@,
                user@,
                port as nat,
                match identity_file {
                    Some(f) => Some(f@),
                    None => None,
                },
                identities_only,
            ),
        ),
{
    let ghost ident = match identity_file {
        Some(f) => Some(f@),
        None => None,
    };
    let ghost ls = entry_lines(host@, host_name@, user@, port as nat, ident, identities_only);
    let ghost acc: Seq<Seq<char>> = Seq::empty();
    let mut r = String::new();
    push_line(&mut r, "");
    proof {
        reveal_strlit("");
        lemma_join_push(acc, ""@);
        acc = acc.push(""@);
    }
    let mut l = String::from_str("Host ");
    l.append(host);
    push_line(&mut r, l.as_str());
    proof {
        lemma_join_push(acc, l@);
        acc = acc.push(l@);
    }
    let mut l = String::from_str("    HostName ");
    l.append(host_name);
    push_line(&mut r, l.as_str());
    proof {
        lemma_join_push(acc, l@);
        acc = acc.push(l@);
    }
    let mut l = String::from_str("    user ");
    l.append(user);
    push_line(&mut r, l.as_str());
    proof {
        lemma_join_push(acc, l@);
        acc = acc.push(l@);
    }
    let mut l = String::from_str("    port ");
    let p = decimal_string(port as u64);
    l.append(p.as_str());
    push_line(&mut r, l.as_str());
    proof {
        lemma_join_push(acc, l@);
        acc = acc.push(l@);
    }
    match identity_file {
        Some(f) => {
            let mut l = String::from_str("    IdentityFile ");
            l.append(f.as_str());
            push_line(&mut r, l.as_str());
            proof {
                lemma_join_push(acc, l@);
                acc = acc.push(l@);
            }
        },
        None => {},
    }
    if identities_only {
        push_line(&mut r, "    IdentityFilesOnly yes");
        proof {
            lemma_join_push(acc, "    IdentityFilesOnly yes"@);
            acc = acc.push("    IdentityFilesOnly yes"@);
        }
    }
    assert(acc =~= ls);
    r
}

/// Removes host block `index` from the text, keeping every other line as it
/// stands, ending included. Also gives the alias of the removed block; when
/// no block has that index the text is unchanged.
pub fn delete_entry(text: &str, index: usize) -> (r: Deletion)
    ensures
        r.text@ == delete_text(text@, index as nat),
        match r.host {
            Some(h) => block_alias(raw_lines(text@), index as nat) == Some(h@),
            None => block_alias(raw_lines(text@), index as nat) is None,
        },
        r.host is None ==> r.text@ == text@,
{
    let chars = to_chars(text);
    let lines = split_raw_lines(&chars);
    let ghost ls = views(lines@);
    let host = ['H', 'o', 's', 't', ' '];
    assert(host@ == host_key());
    let mut out: Vec<char> = Vec::new();
    let mut seen: usize = 0;
    let mut alias: Option<Vec<char>> = None;
    let mut i: usize = 0;
    assert(ls.subrange(0, 0) =~= Seq::<Seq<char>>::empty());
    while i < lines.len()
        invariant
            i <= lines@.len(),
            ls == views(lines@),
            host@ == host_key(),
            seen == host_count(ls.subrange(0, i as int)),
            seen <= i,
            out@ == concat_lines(without_block(ls.subrange(0, i as int), index as nat)),
            match alias {
                Some(a) => block_alias(ls.subrange(0, i as int), index as nat) == Some(a@),
                None => block_alias(ls.subrange(0, i as int), index as nat) is None,
            },
        decreases lines.len() - i,
    {
        let ghost pre = ls.subrange(0, i as int);
        let ghost cur = ls.subrange(0, i + 1);
        assert(cur.drop_last() =~= pre);
        assert(cur.last() == lines@[i as int]@);
        let line = lines[i].as_slice();
        let is_host = has_prefix(line, &host);
        if is_host {
            seen = seen + 1;
        }
        let in_block = seen > 0 && seen - 1 == index;
        if in_block {
            if is_host {
                let rest = skip_chars(line, 5);
                alias = Some(trim_chars(&rest));
            }
        } else {
            push_chars(&mut out, line);
            let ghost kept = without_block(pre, index as nat);
            assert(kept.push(cur.last()).drop_last() =~= kept);
            assert(out@ =~= concat_lines(without_block(cur, index as nat)));
        }
        i = i + 1;
    }
    assert(ls.subrange(0, i as int) =~= ls);
    let host_alias = match alias {
        Some(a) => Some(from_chars(&a)),
        None => None,
    };
    proof {
        if host_alias is None {
            lemma_no_alias_no_block(ls, index as nat);
            lemma_without_block_before(ls, index as nat);
            lemma_raw_lines_wf(text@);
        }
    }
    Deletion { text: from_chars(&out), host: host_alias }
}

/// The index named by a delete request: the selection, trimmed, read as an
/// unsigned integer.
pub fn delete_index(selection: &str) -> (r: Option<usize>)
    ensures
        r matches Some(i) ==> parse_usize(trim(selection@)) == Some(i as nat),
        r is None ==> parse_usize(trim(selection@)) is None,
{
    let s = to_chars(selection);
    let t = trim_chars(&s);
    parse_index(&t)
}

/// Whether a confirmation answer agrees: without its line ending it is
/// exactly `yes`.
pub fn is_confirmed(response: &str) -> (r: bool)
    ensures
        r == (line_content(response@) == "yes"@),
{
    proof {
        reveal_strlit("yes");
    }
    let s = to_chars(response);
    let mut n = s.len();
    if n > 0 && s[n - 1] == '\n' {
        n = n - 1;
        if n > 0 && s[n - 1] == '\r' {
            n = n - 1;
        }
    }
    let ghost t = s@.subrange(0, n as int);
    assert(t == line_content(response@)) by {
        if s@.len() > 0 && s@.last() == '\n' {
            assert(s@.drop_last() =~= s@.subrange(0, s@.len() - 1));
            if s@.len() > 1 && s@[s@.len() - 2] == '\r' {
                assert(s@.drop_last().drop_last() =~= t);
            } else {
                assert(s@.drop_last() =~= t);
            }
        } else {
            assert(s@ =~= t);
        }
    }
    let r = n == 3 && s[0] == 'y' && s[1] == 'e' && s[2] == 's';
    assert(r == (t == "yes"@)) by {
        if t == "yes"@ {
            assert(t[0] == 'y' && t[1] == 'e' && t[2] == 's');
        }
        if r {
            assert(t =~= "yes"@);
        }
    }
    r
}

/// The text to write back after a delete request: the rewritten text when a
/// block was removed and the answer, without its line ending, is exactly
/// `yes`; otherwise nothing is written.
pub fn text_to_write(deletion: &Deletion, response: &str) -> (r: Option<String>)
    ensures
        r is Some <==> (deletion.host is Some && line_content(response@) == "yes"@),
        r matches Some(t) ==> t@ == deletion.text@,
{
    if deletion.host.is_some() && is_confirmed(response) {
        Some(deletion.text.clone())
    } else {
        None
    }
}

/// A block removal keeps every line before the block's `Host` line.
proof fn lemma_without_block_before(ls: Seq<Seq<char>>, index: nat)
    requires
        host_count(ls) <= index,
    ensures
        without_block(ls, index) == ls,
    decreases ls.len(),
{
    if ls.len() > 0 {
        lemma_without_block_before(ls.drop_last(), index);
        assert(ls.drop_last().push(ls.last()) =~= ls);
    }
}

proof fn lemma_decimal_no_newline(n: nat, k: int)
    ensures
        0 <= k < decimal(n).len() ==> decimal(n)[k] != '\n',
{
    crate::text::lemma_decimal_digits(n);
    if 0 <= k < decimal(n).len() {
        assert(crate::text::is_digit(decimal(n)[k]));
    }
}

/// Without an alias for block `index`, the text holds no such block.
proof fn lemma_no_alias_no_block(ls: Seq<Seq<char>>, index: nat)
    requires
        block_alias(ls, index) is None,
    ensures
        host_count(ls) <= index,
    decreases ls.len(),
{
    if ls.len() > 0 {
        lemma_no_alias_no_block(ls.drop_last(), index);
    }
}

/// A blank line, then more lines, each ended by `'\n'`.
proof fn lemma_join_cons(x: Seq<char>, rest: Seq<Seq<char>>)
    ensures
        join_lines(seq![x] + rest) == x.push('\n') + join_lines(rest),
    decreases rest.len(),
{
    if rest.len() == 0 {
        assert(seq![x] + rest =~= seq![x]);
        assert(seq![x].drop_last() =~= Seq::<Seq<char>>::empty());
        assert(join_lines(seq![x]) == join_lines(Seq::<Seq<char>>::empty()) + x + seq!['\n']);
        assert(join_lines(seq![x]) =~= x.push('\n') + join_lines(rest));
    } else {
        lemma_join_cons(x, rest.drop_last());
        assert((seq![x] + rest).drop_last() =~= seq![x] + rest.drop_last());
        assert(join_lines(seq![x] + rest) =~= x.push('\n') + join_lines(rest));
    }
}

/// Lines without `'\n'`, each written with one, read back as those lines
/// with their endings.
proof fn lemma_raw_lines_of_join(ls: Seq<Seq<char>>)
    requires
        forall|i: int| 0 <= i < ls.len() ==> !(#[trigger] ls[i]).contains('\n'),
    ensures
        raw_lines(join_lines(ls)) == ls.map_values(|l: Seq<char>| l.push('\n')),
    decreases ls.len(),
{
    if ls.len() == 0 {
        assert(raw_lines(Seq::empty()) =~= Seq::<Seq<char>>::empty());
        assert(ls.map_values(|l: Seq<char>| l.push('\n')) =~= Seq::<Seq<char>>::empty());
    } else {
        let init = ls.drop_last();
        let last = ls.last();
        assert forall|i: int| 0 <= i < init.len() implies !(#[trigger] init[i]).contains('\n') by {
            assert(init[i] == ls[i]);
        }
        lemma_raw_lines_of_join(init);
        let a = join_lines(init);
        assert(join_lines(ls) =~= a + last.push('\n'));
        if init.len() > 0 {
            assert(a.last() == '\n');
        }
        lemma_raw_lines_concat(a, last.push('\n'));
        lemma_raw_lines_line(last);
        assert(ls.map_values(|l: Seq<char>| l.push('\n')) =~= init.map_values(
            |l: Seq<char>| l.push('\n'),
        ).push(last.push('\n')));
    }
}

/// Ending a line with `'\n'` does not change whether it opens a block.
proof fn lemma_host_line_push_newline(x: Seq<char>)
    ensures
        starts_with(x.push('\n'), host_key()) == starts_with(x, host_key()),
{
    if x.len() >= 5 {
        assert(x.push('\n').subrange(0, 5) =~= x.subrange(0, 5));
    } else if starts_with(x.push('\n'), host_key()) {
        assert(x.push('\n').subrange(0, 5)[x.len() as int] == host_key()[x.len() as int]);
    }
}

/// After lines holding `n` blocks, the lines of one more block: removing
/// block `n` keeps exactly the first lines.
proof fn lemma_without_block_tail(ls: Seq<Seq<char>>, m: Seq<Seq<char>>, j: int)
    requires
        0 <= j <= m.len(),
        m.len() >= 1,
        starts_with(m[0], host_key()),
        forall|k: int| 1 <= k < m.len() ==> !starts_with(#[trigger] m[k], host_key()),
    ensures
        host_count(ls + m.subrange(0, j)) == host_count(ls) + if j >= 1 {
            1nat
        } else {
            0nat
        },
        without_block(ls + m.subrange(0, j), host_count(ls)) == ls,
    decreases j,
{
    if j == 0 {
        assert(ls + m.subrange(0, 0) =~= ls);
        lemma_without_block_before(ls, host_count(ls));
    } else {
        let x = ls + m.subrange(0, j);
        assert(x.drop_last() =~= ls + m.subrange(0, j - 1));
        assert(x.last() == m[j - 1]);
        lemma_without_block_tail(ls, m, j - 1);
    }
}

/// Removing the block just appended gives back the text with one `'\n'`
/// more: the blank separator line, or the ending of a last line that had
/// none. The fields must hold no line ending.
pub proof fn lemma_delete_after_append(
    text: Seq<char>,
    host: Seq<char>,
    host_name: Seq<char>,
    user: Seq<char>,
    port: nat,
    identity_file: Option<Seq<char>>,
    identities_only: bool,
)
    requires
        !host.contains('\n'),
        !host_name.contains('\n'),
        !user.contains('\n'),
        identity_file matches Some(f) ==> !f.contains('\n'),
    ensures
        delete_text(
            text + join_lines(
                entry_lines(host, host_name, user, port, identity_file, identities_only),
            ),
            host_count(raw_lines(text)),
        ) == text.push('\n'),
{
    reveal_strlit("");
    reveal_strlit("Host ");
    reveal_strlit("    HostName ");
    reveal_strlit("    user ");
    reveal_strlit("    port ");
    reveal_strlit("    IdentityFile ");
    reveal_strlit("    IdentityFilesOnly yes");
    let e = entry_lines(host, host_name, user, port, identity_file, identities_only);
    let rest = e.skip(1);
    assert(seq![e[0]] + rest =~= e);
    assert(e[0] =~= Seq::<char>::empty());
    lemma_join_cons(e[0], rest);
    assert forall|i: int| 0 <= i < rest.len() implies !(#[trigger] rest[i]).contains('\n') by {
        if rest[i].contains('\n') {
            let k = choose|k: int| 0 <= k < rest[i].len() && rest[i][k] == '\n';
            if i == 0 {
                assert(k >= 5 ==> host[k - 5] == '\n');
            } else if i == 1 {
                assert(k >= 13 ==> host_name[k - 13] == '\n');
            } else if i == 2 {
                assert(k >= 9 ==> user[k - 9] == '\n');
            } else if i == 3 {
                lemma_decimal_no_newline(port, k - 9);
            } else if i == 4 && identity_file is Some {
                assert(k >= 17 ==> identity_file->Some_0[k - 17] == '\n');
            }
        }
    }
    let a = text.push('\n');
    assert(text + join_lines(e) =~= a + join_lines(rest));
    // the separator ends the text's last line or stands as a line of its own
    let p = raw_lines(text);
    let x = raw_lines(a);
    assert(a.drop_last() =~= text);
    lemma_raw_lines_wf(text);
    lemma_raw_lines_wf(a);
    if p.len() == 0 || p.last().last() == '\n' {
        assert(x.drop_last() =~= p);
        assert(!starts_with(x.last(), host_key()));
    } else {
        assert(x.drop_last() =~= p.drop_last());
        assert(p.drop_last().push(p.last()) =~= p);
        lemma_host_line_push_newline(p.last());
    }
    assert(host_count(x) == host_count(p));
    lemma_raw_lines_concat(a, join_lines(rest));
    lemma_raw_lines_of_join(rest);
    let m = rest.map_values(|l: Seq<char>| l.push('\n'));
    assert(m[0].subrange(0, 5) =~= host_key());
    assert forall|k: int| 1 <= k < m.len() implies !starts_with(#[trigger] m[k], host_key()) by {
        assert(m[k][0] == ' ');
    }
    lemma_without_block_tail(x, m, m.len() as int);
    assert(m.subrange(0, m.len() as int) =~= m);
}

} // verus!
