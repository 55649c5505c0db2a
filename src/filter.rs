//! Filtering the rows of the table by a pattern before display; the header
//! row always stays.

use vstd::prelude::*;
use crate::config::table_view;

verus! {

#[verifier::external_type_specification]
#[verifier::external_body]
pub struct ExRegex(regex::Regex);

#[verifier::external_type_specification]
#[verifier::external_body]
pub struct ExRegexError(regex::Error);

/// Whether `regex::Regex::new` accepts the pattern.
pub uninterp spec fn regex_accepts(pattern: Seq<char>) -> bool;

/// Whether the compiled pattern matches somewhere in the text (`regex::Regex::is_match`).
pub uninterp spec fn regex_finds(pattern: Seq<char>, text: Seq<char>) -> bool;

/// A compiled row filter, with the pattern it was compiled from.
pub struct RowFilter {
    source: String,
    re: regex::Regex,
}

impl View for RowFilter {
    type V = Seq<char>;

    closed spec fn view(&self) -> Seq<char> {
        self.source@
    }
}

/// Why a filter could not be built.
#[derive(Debug, Clone, PartialEq, Eq)]
pub enum FilterError {
    /// The pattern is not a regular expression that the matcher accepts.
    InvalidPattern { pattern: String },
}

/// Relies on `regex::Regex::new`: it compiles the pattern, or fails on one that
/// it does not accept; the filter keeps the pattern beside the compiled form.
#[verifier::external_body]
fn compile_regex(pattern: &str) -> (r: Result<RowFilter, regex::Error>)
    ensures
        r is Ok <==> regex_accepts(pattern@),
        r matches Ok(f) ==> f@ == pattern@,
{
    match regex::Regex::new(pattern) {
        Ok(re) => Ok(RowFilter { source: pattern.to_string(), re }),
        Err(e) => Err(e),
    }
}

/// The pattern of a filter request: `.*<filter>.*`, or `.*` without one.
pub open spec fn filter_pattern(filter: Option<Seq<char>>) -> Seq<char> {
    match filter {
        Some(f) => ".*"@ + f + ".*"@,
        None => ".*"@,
    }
}

/// Some cell of the row matches the pattern.
pub open spec fn row_matches(row: Seq<Seq<char>>, pattern: Seq<char>) -> bool {
    exists|j: int| 0 <= j < row.len() && regex_finds(pattern, #[trigger] row[j])
}

/// The rows after the header among the first `n` whose flag is set, in order.
pub open spec fn flagged_rows(t: Seq<Seq<Seq<char>>>, flags: Seq<bool>, n: int) -> Seq<
    Seq<Seq<char>>,
>
    decreases n,
{
    if n <= 1 {
        Seq::empty()
    } else if flags[n - 1] {
        flagged_rows(t, flags, n - 1).push(t[n - 1])
    } else {
        flagged_rows(t, flags, n - 1)
    }
}

/// The header row, then the other rows whose flag is set, in order.
pub open spec fn select_rows(t: Seq<Seq<Seq<char>>>, flags: Seq<bool>) -> Seq<Seq<Seq<char>>> {
    if t.len() == 0 {
        Seq::empty()
    } else {
        seq![t[0]] + flagged_rows(t, flags, t.len() as int)
    }
}

/// For each row, whether some cell matches the pattern.
pub open spec fn match_flags(t: Seq<Seq<Seq<char>>>, pattern: Seq<char>) -> Seq<bool> {
    Seq::new(t.len(), |i: int| row_matches(t[i], pattern))
}

/// The table as shown: its header row, then the other rows that match.
pub open spec fn filter_table(t: Seq<Seq<Seq<char>>>, pattern: Seq<char>) -> Seq<
    Seq<Seq<char>>,
> {
    select_rows(t, match_flags(t, pattern))
}

/// The header row, then the other rows whose flag is set, in order; one flag
/// per row, the header's unread.
pub fn keep_flagged_rows(rows: &Vec<Vec<String>>, flags: &Vec<bool>) -> (r: Vec<Vec<String>>)
    requires
        flags@.len() == rows@.len(),
    ensures
        table_view(r@) == select_rows(table_view(rows@), flags@),
{
    let ghost t = table_view(rows@);
    let mut out: Vec<Vec<String>> = Vec::new();
    if rows.len() == 0 {
        assert(table_view(out@) =~= select_rows(t, flags@));
        return out;
    }
    out.push(rows[0].clone());
    let mut i: usize = 1;
    assert(table_view(out@) =~~= seq![t[0]] + flagged_rows(t, flags@, 1));
    while i < rows.len()
        invariant
            1 <= i <= rows@.len(),
            flags@.len() == rows@.len(),
            t == table_view(rows@),
            table_view(out@) == seq![t[0]] + flagged_rows(t, flags@, i as int),
        decreases rows.len() - i,
    {
        if flags[i] {
            let ghost before = table_view(out@);
            out.push(rows[i].clone());
            assert(table_view(out@) =~~= before.push(t[i as int]));
            assert(table_view(out@) =~~= seq![t[0]] + flagged_rows(t, flags@, i + 1));
        }
        i = i + 1;
    }
    out
}

impl RowFilter {
    /// Relies on `regex::Regex::is_match`: whether the pattern matches
    /// somewhere in the text.
    #[verifier::external_body]
    fn is_match(&self, text: &str) -> (r: bool)
        ensures
            r == regex_finds(self@, text@),
    {
        self.re.is_match(text)
    }

    /// The filter of a request: `.*<filter>.*`, or `.*` without one.
    pub fn compile(filter: &Option<String>) -> (r: Result<RowFilter, FilterError>)
        ensures
            r is Ok <==> regex_accepts(filter_pattern(
                match filter {
                    Some(f) => Some(f@),
                    None => None,
                },
            )),
            r matches Ok(f) ==> f@ == filter_pattern(
                match filter {
                    Some(f) => Some(f@),
                    None => None,
                },
            ),
            r matches Err(FilterError::InvalidPattern { pattern }) ==> pattern@ == filter_pattern(
                match filter {
                    Some(f) => Some(f@),
                    None => None,
                },
            ),
    {
        let mut pattern = String::from_str(".*");
        match filter {
            Some(f) => {
                pattern.append(f.as_str());
                pattern.append(".*");
            },
            None => {},
        }
        match compile_regex(pattern.as_str()) {
            Ok(rf) => Ok(rf),
            Err(_) => Err(FilterError::InvalidPattern { pattern }),
        }
    }

    /// Whether some cell of the row matches.
    pub fn matches_row(&self, row: &Vec<String>) -> (r: bool)
        ensures
            r == row_matches(row@.map_values(|c: String| c@), self@),
    {
        let ghost cells = row@.map_values(|c: String| c@);
        let mut j: usize = 0;
        while j < row.len()
            invariant
                j <= row@.len(),
                cells == row@.map_values(|c: String| c@),
                forall|k: int| 0 <= k < j ==> !regex_finds(self@, #[trigger] cells[k]),
            decreases row.len() - j,
        {
            if self.is_match(row[j].as_str()) {
                assert(regex_finds(self@, cells[j as int]));
                return true;
            }
            j = j + 1;
        }
        false
    }

    /// The table as shown: the header row, then the other rows of which some
    /// cell matches, in order.
    pub fn filter_rows(&self, rows: &Vec<Vec<String>>) -> (r: Vec<Vec<String>>)
        ensures
            table_view(r@) == filter_table(table_view(rows@), self@),
    {
        let ghost t = table_view(rows@);
        let mut flags: Vec<bool> = Vec::new();
        let mut i: usize = 0;
        while i < rows.len()
            invariant
                i <= rows@.len(),
                t == table_view(rows@),
                flags@ == match_flags(t, self@).subrange(0, i as int),
            decreases rows.len() - i,
        {
            let m = self.matches_row(&rows[i]);
            assert(rows@[i as int]@.map_values(|c: String| c@) == t[i as int]);
            flags.push(m);
            i = i + 1;
            assert(flags@ =~= match_flags(t, self@).subrange(0, i as int));
        }
        assert(flags@ =~= match_flags(t, self@));
        keep_flagged_rows(rows, &flags)
    }
}

/// The table as shown for a filter request: an error when the pattern is not
/// accepted, else the header row and the rows of which some cell matches.
pub fn filter_table_rows(rows: &Vec<Vec<String>>, filter: &Option<String>) -> (r: Result<
    Vec<Vec<String>>,
    FilterError,
>)
    ensures
        r is Ok <==> regex_accepts(filter_pattern(
            match filter {
                Some(f) => Some(f@),
                None => None,
            },
        )),
        r matches Ok(v) ==> table_view(v@) == filter_table(
            table_view(rows@),
            filter_pattern(
                match filter {
                    Some(f) => Some(f@),
                    None => None,
                },
            ),
        ),
        r matches Err(FilterError::InvalidPattern { pattern }) ==> pattern@ == filter_pattern(
            match filter {
                Some(f) => Some(f@),
                None => None,
            },
        ),
{
    match RowFilter::compile(filter) {
        Ok(f) => Ok(f.filter_rows(rows)),
        Err(e) => Err(e),
    }
}

} // verus!
