//! Parsing the configuration text into a table of connection records.

use vstd::prelude::*;
use crate::text::{
    decimal, decimal_string, from_chars, has_prefix, lines_of, skip_chars, split_lines,
    starts_with, to_chars, trim, trim_chars, views,
};

verus! {

/// The directive that opens a host block.
pub open spec fn host_key() -> Seq<char> {
    seq!['H', 'o', 's', 't', ' ']
}

/// The directive that names the real host of a block.
pub open spec fn host_name_key() -> Seq<char> {
    seq!['H', 'o', 's', 't', 'N', 'a', 'm', 'e', ' ']
}

/// The directive that names the login of a block.
pub open spec fn user_key() -> Seq<char> {
    seq!['u', 's', 'e', 'r', ' ']
}

/// The line, trimmed, opens a host block.
pub open spec fn is_host_line(line: Seq<char>) -> bool {
    starts_with(trim(line), host_key())
}

/// The alias that a `Host` line names: what follows the directive, trimmed.
pub open spec fn alias_of(line: Seq<char>) -> Seq<char> {
    trim(trim(line).skip(5))
}

/// The header row of the table.
pub open spec fn header_row() -> Seq<Seq<char>> {
    seq!["Index"@, "HostName"@, "Host"@, "User"@]
}

/// The table after one more line: a `Host` line opens a row
/// `[index, alias, "", ""]`; a `HostName` or `user` line sets that column of
/// the last row, if there is one; any other line changes nothing.
pub open spec fn parse_step(rows: Seq<Seq<Seq<char>>>, line: Seq<char>) -> Seq<Seq<Seq<char>>> {
    let t = trim(line);
    if starts_with(t, host_key()) {
        rows.push(seq![decimal(rows.len()), trim(t.skip(5)), Seq::empty(), Seq::empty()])
    } else if starts_with(t, host_name_key()) && rows.len() > 0 {
        rows.update(rows.len() - 1, rows.last().update(2, t.skip(9)))
    } else if starts_with(t, user_key()) && rows.len() > 0 {
        rows.update(rows.len() - 1, rows.last().update(3, t.skip(5)))
    } else {
        rows
    }
}

/// The record rows of a sequence of lines, read in order.
pub open spec fn parse_rows(lines: Seq<Seq<char>>) -> Seq<Seq<Seq<char>>>
    decreases lines.len(),
{
    if lines.len() == 0 {
        Seq::empty()
    } else {
        parse_step(parse_rows(lines.drop_last()), lines.last())
    }
}

/// The table of a configuration text: the header row, then one row per host block.
pub open spec fn parse_table(text: Seq<char>) -> Seq<Seq<Seq<char>>> {
    seq![header_row()] + parse_rows(lines_of(text))
}

/// The aliases of the `Host` lines, in order.
pub open spec fn host_aliases(lines: Seq<Seq<char>>) -> Seq<Seq<char>>
    decreases lines.len(),
{
    if lines.len() == 0 {
        Seq::empty()
    } else if is_host_line(lines.last()) {
        host_aliases(lines.drop_last()).push(alias_of(lines.last()))
    } else {
        host_aliases(lines.drop_last())
    }
}

/// The view of a table of strings.
pub open spec fn table_view(t: Seq<Vec<String>>) -> Seq<Seq<Seq<char>>> {
    t.map_values(|r: Vec<String>| r@.map_values(|c: String| c@))
}

/// Every row holds four cells.
pub open spec fn rows_wf(t: Seq<Seq<Seq<char>>>) -> bool {
    forall|i: int| 0 <= i < t.len() ==> (#[trigger] t[i]).len() == 4
}

/// A table: a header row, then record rows, each of four cells.
pub open spec fn is_table(t: Seq<Seq<Seq<char>>>) -> bool {
    t.len() >= 1 && rows_wf(t)
}

/// Sets one cell of the last row.
fn set_last_cell(rows: &mut Vec<Vec<String>>, col: usize, value: String)
    requires
        old(rows)@.len() > 0,
        rows_wf(table_view(old(rows)@)),
        col < 4,
    ensures
        table_view(final(rows)@) == table_view(old(rows)@).update(
            old(rows)@.len() - 1,
            table_view(old(rows)@).last().update(col as int, value@),
        ),
        rows_wf(table_view(final(rows)@)),
{
    let ghost before = table_view(rows@);
    let mut row = rows.pop().unwrap();
    assert(row@.map_values(|c: String| c@) == before.last());
    row.set(col, value);
    rows.push(row);
    assert(table_view(rows@) =~~= before.update(before.len() - 1, before.last().update(col as int, value@)));
}

/// The table of a configuration text: a header row, then one row
/// `[index, alias, host name, user]` per `Host` line, in file order.
pub fn parse_ssh_config(text: &str) -> (r: Vec<Vec<String>>)
    ensures
        table_view(r@) == parse_table(text@),
        is_table(table_view(r@)),
{
    let chars = to_chars(text);
    let lines = split_lines(&chars);
    let host = ['H', 'o', 's', 't', ' '];
    let host_name = ['H', 'o', 's', 't', 'N', 'a', 'm', 'e', ' '];
    let user = ['u', 's', 'e', 'r', ' '];
    assert(host@ == host_key());
    assert(host_name@ == host_name_key());
    assert(user@ == user_key());
    let mut rows: Vec<Vec<String>> = Vec::new();
    let mut i: usize = 0;
    while i < lines.len()
        invariant
            i <= lines@.len(),
            views(lines@) == lines_of(text@),
            host@ == host_key(),
            host_name@ == host_name_key(),
            user@ == user_key(),
            table_view(rows@) == parse_rows(views(lines@).subrange(0, i as int)),
            rows_wf(table_view(rows@)),
        decreases lines.len() - i,
    {
        let ghost ls = views(lines@);
        assert(ls.subrange(0, i + 1).drop_last() =~= ls.subrange(0, i as int));
        assert(ls.subrange(0, i + 1).last() == lines@[i as int]@);
        let ghost before = table_view(rows@);
        let t = trim_chars(lines[i].as_slice());
        if has_prefix(&t, &host) {
            let alias = trim_chars(skip_chars(&t, 5).as_slice());
            let mut row: Vec<String> = Vec::new();
            row.push(decimal_string(rows.len() as u64));
            row.push(from_chars(&alias));
            row.push(String::new());
            row.push(String::new());
            rows.push(row);
            assert(table_view(rows@) =~~= before.push(
                seq![decimal(before.len()), alias@, Seq::empty(), Seq::empty()],
            ));
        } else if has_prefix(&t, &host_name) && rows.len() > 0 {
            let v = skip_chars(&t, 9);
            set_last_cell(&mut rows, 2, from_chars(&v));
        } else if has_prefix(&t, &user) && rows.len() > 0 {
            let v = skip_chars(&t, 5);
            set_last_cell(&mut rows, 3, from_chars(&v));
        }
        i = i + 1;
    }
    assert(views(lines@).subrange(0, lines@.len() as int) =~= views(lines@));
    let mut table: Vec<Vec<String>> = Vec::new();
    let mut header: Vec<String> = Vec::new();
    header.push(String::from_str("Index"));
    header.push(String::from_str("HostName"));
    header.push(String::from_str("Host"));
    header.push(String::from_str("User"));
    table.push(header);
    table.append(&mut rows);
    assert(table_view(table@) =~~= parse_table(text@));
    table
}

/// Each row of `parse_rows(lines)` has four cells; there is one row per
/// `Host` line, whose index is its position and whose host is the line's alias.
pub proof fn lemma_parse_rows_hosts(lines: Seq<Seq<char>>)
    ensures
        rows_wf(parse_rows(lines)),
        parse_rows(lines).len() == host_aliases(lines).len(),
        forall|k: int|
            0 <= k < parse_rows(lines).len() ==> (#[trigger] parse_rows(lines)[k])[0] == decimal(
                k as nat,
            ) && parse_rows(lines)[k][1] == host_aliases(lines)[k],
    decreases lines.len(),
{
    if lines.len() > 0 {
        lemma_parse_rows_hosts(lines.drop_last());
        let prev = parse_rows(lines.drop_last());
        let rows = parse_rows(lines);
        assert(rows == parse_step(prev, lines.last()));
        assert forall|k: int| 0 <= k < rows.len() implies (#[trigger] rows[k]).len() == 4 by {
            if k < prev.len() {
                assert(prev[k].len() == 4);
            }
        }
    }
}

/// Parsing keeps the order of the host blocks: for a text whose `Host` lines
/// name h0, ..., h(N-1) in that order, the table holds the header and exactly
/// N rows, and row k + 1 has index k and host hk.
pub proof fn lemma_parse_order(text: Seq<char>)
    ensures
        parse_table(text).len() == host_aliases(lines_of(text)).len() + 1,
        forall|k: int|
            0 <= k < host_aliases(lines_of(text)).len() ==> (#[trigger] parse_table(text)[k
                + 1])[0] == decimal(k as nat) && parse_table(text)[k + 1][1] == host_aliases(
                lines_of(text),
            )[k],
{
    lemma_parse_rows_hosts(lines_of(text));
    let rows = parse_rows(lines_of(text));
    assert forall|k: int| 0 <= k < host_aliases(lines_of(text)).len() implies (
    #[trigger] parse_table(text)[k + 1])[0] == decimal(k as nat) && parse_table(text)[k + 1][1]
        == host_aliases(lines_of(text))[k] by {
        assert(parse_table(text)[k + 1] == rows[k]);
    }
}

} // verus!
