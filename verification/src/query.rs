//! Questions asked of the collected statistics and exports of them.

use crate::format::{join, joined, texts_of};
use crate::text::str_eq;
use vstd::prelude::*;

verus! {

/// A question asked of the weekly totals.
#[derive(Debug)]
pub enum QueryKind {
    /// The totals of the latest `limit` weeks of `source`.
    Weekly { limit: usize, source: String },
    /// The sum of all totals of `source`.
    Total { source: String },
    /// The latest figures.
    Latest,
}

/// An export of the table `table` to the file `output`.
#[derive(Debug)]
pub enum ExportKind {
    /// As comma-separated values.
    Csv { output: String, table: String },
    /// As a JSON array of records.
    Json { output: String, table: String },
}

/// The sources that a question is about.
#[derive(Clone, Copy, Debug, PartialEq, Eq, Structural)]
pub enum SourceFilter {
    /// Release downloads only.
    Github,
    /// Registry downloads only.
    Crates,
    /// All sources together.
    All,
}

impl SourceFilter {
    /// The filter that the word `source` stands for: `github` and `crates`
    /// name a source, every other word stands for all sources.
    pub open spec fn of(source: Seq<char>) -> SourceFilter {
        if source == "github"@ {
            SourceFilter::Github
        } else if source == "crates"@ {
            SourceFilter::Crates
        } else {
            SourceFilter::All
        }
    }

    /// Reads the source that a question names: `github`, `crates`, or
    /// anything else for all sources.
    pub fn parse(source: &str) -> (filter: SourceFilter)
        ensures
            filter == Self::of(source@),
    {
        if str_eq(source, "github") {
            SourceFilter::Github
        } else if str_eq(source, "crates") {
            SourceFilter::Crates
        } else {
            SourceFilter::All
        }
    }

    /// How a total over these sources is described.
    pub open spec fn description_text(self) -> Seq<char> {
        match self {
            SourceFilter::Github => "GitHub releases (tracked period)"@,
            SourceFilter::Crates => "crates.io (last year)"@,
            SourceFilter::All => "All sources"@,
        }
    }

    /// How a total over these sources is described.
    pub fn description(&self) -> (text: &'static str)
        ensures
            text@ == self.description_text(),
    {
        match self {
            SourceFilter::Github => "GitHub releases (tracked period)",
            SourceFilter::Crates => "crates.io (last year)",
            SourceFilter::All => "All sources",
        }
    }
}

/// A table that can be exported.
#[derive(Clone, Copy, Debug, PartialEq, Eq, Structural)]
pub enum ExportTable {
    /// The weekly totals.
    Weekly,
    /// The daily registry downloads.
    Daily,
    /// The snapshots of release downloads.
    Github,
}

/// A word that names no table that can be exported.
#[derive(Debug)]
pub struct UnknownTable {
    /// The word, as it was given.
    pub table: String,
}

impl UnknownTable {
    /// The sentence that names the word and the tables there are.
    pub open spec fn message_text(table: Seq<char>) -> Seq<char> {
        "Unknown table type: "@ + table + ". Use 'weekly', 'daily', or 'github'"@
    }

    /// A description that quotes the word and lists the tables there are.
    pub fn message(&self) -> (text: String)
        ensures
            text@ == Self::message_text(self.table@),
    {
        let mut text = String::from_str("Unknown table type: ");
        text.append(self.table.as_str());
        text.append(". Use 'weekly', 'daily', or 'github'");
        text
    }
}

impl ExportTable {
    /// The table that the word `table` names, if it names one.
    pub open spec fn of(table: Seq<char>) -> Option<ExportTable> {
        if table == "weekly"@ {
            Some(ExportTable::Weekly)
        } else if table == "daily"@ {
            Some(ExportTable::Daily)
        } else if table == "github"@ {
            Some(ExportTable::Github)
        } else {
            None
        }
    }

    /// Reads the table that an export names: `weekly`, `daily` or
    /// `github`. Any other word is rejected and quoted in the error.
    pub fn parse(table: &str) -> (r: Result<ExportTable, UnknownTable>)
        ensures
            match r {
                Ok(found) => Self::of(table@) == Some(found),
                Err(error) => Self::of(table@) is None && error.table@ == table@,
            },
    {
        if str_eq(table, "weekly") {
            Ok(ExportTable::Weekly)
        } else if str_eq(table, "daily") {
            Ok(ExportTable::Daily)
        } else if str_eq(table, "github") {
            Ok(ExportTable::Github)
        } else {
            Err(UnknownTable { table: String::from_str(table) })
        }
    }
}

/// One line of comma-separated values: the values with a comma between
/// each two, as they are, without quoting.
pub fn csv_line(values: &Vec<String>) -> (line: String)
    ensures
        line@ == joined(texts_of(values@), ","@),
{
    join(values, ",")
}

/// `count` spaces.
pub open spec fn spaces(count: nat) -> Seq<char> {
    Seq::new(count, |i: int| ' ')
}

/// `text` followed by as many spaces as it lacks to `width` characters.
pub open spec fn left_aligned(text: Seq<char>, width: nat) -> Seq<char> {
    if text.len() >= width {
        text
    } else {
        text + spaces((width - text.len()) as nat)
    }
}

/// `text` preceded by as many spaces as it lacks to `width` characters.
pub open spec fn right_aligned(text: Seq<char>, width: nat) -> Seq<char> {
    if text.len() >= width {
        text
    } else {
        spaces((width - text.len()) as nat) + text
    }
}

/// Appends `count` spaces to `text`.
fn append_spaces(text: &mut String, count: usize)
    ensures
        final(text)@ == old(text)@ + spaces(count as nat),
{
    let mut i: usize = 0;
    assert(text@ =~= old(text)@ + spaces(0));
    while i < count
        invariant
            i <= count,
            text@ == old(text)@ + spaces(i as nat),
        decreases count - i,
    {
        proof {
            reveal_strlit(" ");
            assert(" "@ =~= seq![' ']);
            assert(old(text)@ + spaces(i as nat) + seq![' '] =~= old(text)@ + spaces((i + 1) as nat));
        }
        text.append(" ");
        i += 1;
    }
}

/// The width of the column of weeks in the table of weekly totals.
pub const WEEK_COLUMN: usize = 12;

/// The width of the column of downloads in the table of weekly totals.
pub const DOWNLOADS_COLUMN: usize = 15;

/// One line of the table of weekly totals: `week` on the left of a column
/// of 12 characters, a space, and `downloads` on the right of a column of
/// 15 characters. A text that is wider than its column is left as it is.
pub fn table_line(week: &str, downloads: &str) -> (line: String)
    ensures
        line@ == left_aligned(week@, WEEK_COLUMN as nat) + seq![' '] + right_aligned(
            downloads@,
            DOWNLOADS_COLUMN as nat,
        ),
{
    let mut line = String::from_str(week);
    let week_len = week.unicode_len();
    if week_len < WEEK_COLUMN {
        append_spaces(&mut line, WEEK_COLUMN - week_len);
    }
    proof {
        reveal_strlit(" ");
        assert(" "@ =~= seq![' ']);
    }
    line.append(" ");
    let downloads_len = downloads.unicode_len();
    if downloads_len < DOWNLOADS_COLUMN {
        append_spaces(&mut line, DOWNLOADS_COLUMN - downloads_len);
    }
    line.append(downloads);
    assert(line@ =~= left_aligned(week@, WEEK_COLUMN as nat) + seq![' '] + right_aligned(
        downloads@,
        DOWNLOADS_COLUMN as nat,
    ));
    line
}

} // verus!
