//! Resolving a selector (an index or a host alias) to one connection.

use vstd::prelude::*;
use crate::config::{is_table, table_view};
use crate::text::{
    decimal, lemma_decimal_parses, parse_index, parse_usize, to_chars, trim, trim_chars,
};

verus! {

/// Why a selector names no connection.
#[derive(Debug, Clone, PartialEq, Eq)]
pub enum SelectionError {
    /// The selector is an index past the records; `count` is the number of records.
    IndexOutOfRange { index: usize, count: usize },
    /// The selector is no index and no record has it as its host.
    NoSuchConnection { name: String },
}

/// The number of records of a table (its rows after the header).
pub open spec fn record_count(t: Seq<Seq<Seq<char>>>) -> int {
    t.len() - 1
}

/// Some record of the table has exactly this host.
pub open spec fn has_host(t: Seq<Seq<Seq<char>>>, name: Seq<char>) -> bool {
    exists|k: int| 0 <= k < record_count(t) && #[trigger] t[k + 1][1] == name
}

/// The host that an index selects: the record at that position, or the last
/// record when the index equals the number of records.
pub open spec fn index_host(t: Seq<Seq<Seq<char>>>, i: nat) -> Option<Seq<char>> {
    if i < record_count(t) {
        Some(t[i as int + 1][1])
    } else if i == record_count(t) && record_count(t) > 0 {
        Some(t[i as int][1])
    } else {
        None
    }
}

/// The host that a selector resolves to: a selector that reads as an index
/// once trimmed selects by position; any other selects the record whose host
/// it equals.
pub open spec fn resolve(t: Seq<Seq<Seq<char>>>, sel: Seq<char>) -> Option<Seq<char>> {
    match parse_usize(trim(sel)) {
        Some(i) => index_host(t, i),
        None => if has_host(t, sel) {
            Some(sel)
        } else {
            None
        },
    }
}

/// The host of the connection that `index` selects in the table `data`.
pub fn get_connection_name(data: Vec<Vec<String>>, index: &String) -> (r: Result<String, SelectionError>)
    requires
        is_table(table_view(data@)),
    ensures
        r is Ok <==> resolve(table_view(data@), index@) is Some,
        match r {
            Ok(h) => resolve(table_view(data@), index@) == Some(h@),
            Err(SelectionError::IndexOutOfRange { index: i, count }) => parse_usize(
                trim(index@),
            ) == Some(i as nat) && count == record_count(table_view(data@)),
            Err(SelectionError::NoSuchConnection { name }) => parse_usize(trim(index@)) is None
                && name@ == index@,
        },
{
    let ghost t = table_view(data@);
    let count = data.len() - 1;
    let sel = to_chars(index.as_str());
    let trimmed = trim_chars(&sel);
    match parse_index(&trimmed) {
        Some(i) => {
            if i < count {
                assert(t[i + 1][1] == data@[i + 1]@[1]@);
                Ok(data[i + 1][1].clone())
            } else if i == count && count > 0 {
                assert(t[i as int][1] == data@[i as int]@[1]@);
                Ok(data[i][1].clone())
            } else {
                Err(SelectionError::IndexOutOfRange { index: i, count })
            }
        },
        None => {
            let mut k: usize = 0;
            while k < count
                invariant
                    count == data@.len() - 1,
                    t == table_view(data@),
                    is_table(t),
                    parse_usize(trim(index@)) is None,
                    k <= count,
                    forall|j: int| 0 <= j < k ==> #[trigger] t[j + 1][1] != index@,
                decreases count - k,
            {
                assert(t[k + 1][1] == data@[k + 1]@[1]@);
                assert(t[k + 1].len() == 4);
                if data[k + 1][1] == *index {
                    assert(has_host(t, index@));
                    return Ok(index.clone());
                }
                k = k + 1;
            }
            Err(SelectionError::NoSuchConnection { name: index.clone() })
        },
    }
}

/// Resolution is total on the records of a table: each record is selected
/// by its index, and by its host unless that host reads as an index.
pub proof fn lemma_resolve_total(t: Seq<Seq<Seq<char>>>, k: int)
    requires
        is_table(t),
        t.len() <= usize::MAX,
        0 <= k < record_count(t),
    ensures
        resolve(t, decimal(k as nat)) == Some(t[k + 1][1]),
        parse_usize(trim(t[k + 1][1])) is None ==> resolve(t, t[k + 1][1]) == Some(t[k + 1][1]),
{
    lemma_decimal_parses(k as nat);
}

/// An index past the number of records selects nothing, so resolving it fails
/// with `IndexOutOfRange`; the index equal to the number of records selects
/// the last record.
pub proof fn lemma_resolve_index_bounds(t: Seq<Seq<Seq<char>>>, sel: Seq<char>, i: nat)
    requires
        is_table(t),
        parse_usize(trim(sel)) == Some(i),
    ensures
        i > record_count(t) ==> resolve(t, sel) is None,
        i == record_count(t) && i > 0 ==> resolve(t, sel) == Some(t[record_count(t)][1]),
{
}

/// An alias resolves only to a record whose host it equals exactly; one that
/// no record has as its host resolves to nothing, so resolving it fails with
/// `NoSuchConnection`.
pub proof fn lemma_resolve_alias_exact(t: Seq<Seq<Seq<char>>>, sel: Seq<char>)
    requires
        is_table(t),
        parse_usize(trim(sel)) is None,
    ensures
        resolve(t, sel) is Some ==> exists|k: int|
            0 <= k < record_count(t) && #[trigger] t[k + 1][1] == sel && resolve(t, sel) == Some(
                sel,
            ),
        (forall|k: int| 0 <= k < record_count(t) ==> #[trigger] t[k + 1][1] != sel) ==> resolve(
            t,
            sel,
        ) is None,
{
}

} // verus!
