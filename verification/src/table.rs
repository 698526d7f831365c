use crate::stats::{type_keys, Author, AuthorStats, FileType, NumberOfLines, RepoStats};
use crate::text::{decimal_digits, decimal_text, grouped_digits, grouped_text};
use vstd::prelude::*;
use vstd::string::StringExecFns;

verus! {

/// The width, in characters, to which a report is laid out.
pub const TABLE_WIDTH: usize = 100;

/// One row of a report: an author's rank, email, line total and leading file types.
pub struct TableRow {
    pub number: u32,
    pub author_email: String,
    pub lines: String,
    pub lines_by_file_type: String,
}

/// What a row shows.
pub struct RowText {
    pub number: nat,
    pub author_email: Seq<char>,
    pub lines: Seq<char>,
    pub lines_by_file_type: Seq<char>,
}

/// A report as text, laid out as a table.
pub struct TableDisplay {
    pub table: String,
}

impl View for TableRow {
    type V = RowText;

    open spec fn view(&self) -> RowText {
        RowText {
            number: self.number as nat,
            author_email: self.author_email@,
            lines: self.lines@,
            lines_by_file_type: self.lines_by_file_type@,
        }
    }
}

/// The share of `part` in `total` in percent, rounded to the nearest whole number, a half
/// rounded up; 255 where the share is more than that.
pub open spec fn percentage(part: nat, total: nat) -> nat {
    let rounded = (200 * part + total) / (2 * total);
    if rounded > 255 {
        255
    } else {
        rounded
    }
}

/// The percentage, and zero where the total is zero.
pub open spec fn share(part: nat, total: nat) -> nat {
    if total == 0 {
        0
    } else {
        percentage(part, total)
    }
}

/// A line count with its percentage: `1,234 (56%)`.
pub open spec fn lines_cell(lines: nat, percent: nat) -> Seq<char> {
    grouped_digits(lines) + " ("@ + decimal_digits(percent) + "%)"@
}

/// The line of a summary for one file type: `rs: 1,234 (56%)`, the percentage being the
/// share of the type's lines in the author's lines.
pub open spec fn type_line(name: Seq<char>, lines: nat, author_lines: nat) -> Seq<char> {
    name + ": "@ + lines_cell(lines, share(lines, author_lines))
}

/// The lines of a summary: one for each of the first five file types.
pub open spec fn type_lines(types: Seq<(Seq<char>, nat)>, author_lines: nat) -> Seq<Seq<char>> {
    Seq::new(
        if types.len() < 5 {
            types.len()
        } else {
            5
        },
        |i: int| type_line(types[i].0, types[i].1, author_lines),
    )
}

/// The lines, with a line feed between each and the next.
pub open spec fn joined(lines: Seq<Seq<char>>) -> Seq<char>
    decreases lines.len(),
{
    if lines.len() == 0 {
        Seq::empty()
    } else if lines.len() == 1 {
        lines[0]
    } else {
        joined(lines.drop_last()) + "\n"@ + lines.last()
    }
}

/// Where the first entry for the author stands in the listing, looked for from `from` on;
/// the length of the listing where there is none.
pub open spec fn author_position(
    listing: Seq<(&Author, Vec<(&FileType, &NumberOfLines)>)>,
    email: Seq<char>,
    from: int,
) -> int
    decreases listing.len() - from,
{
    if from >= listing.len() {
        listing.len() as int
    } else if listing[from].0.email@ == email {
        from
    } else {
        author_position(listing, email, from + 1)
    }
}

/// Whether the listing has an entry for the author.
pub open spec fn lists_author(
    listing: Seq<(&Author, Vec<(&FileType, &NumberOfLines)>)>,
    email: Seq<char>,
) -> bool {
    0 <= author_position(listing, email, 0) < listing.len()
}

/// The row of the author at place `i` of the ranking: the number counts from one, the
/// lines come with their share in the repository's total, and the summary lists the
/// author's first five file types as the listing gives them.
pub open spec fn row_for(
    repo_stats: &RepoStats,
    sorted_authors: Seq<(&Author, &AuthorStats)>,
    sorted_file_types_by_author: Seq<(&Author, Vec<(&FileType, &NumberOfLines)>)>,
    i: int,
) -> RowText {
    let email = sorted_authors[i].0.email@;
    let lines = sorted_authors[i].1.lines.0 as nat;
    let file_types = sorted_file_types_by_author[author_position(
        sorted_file_types_by_author,
        email,
        0,
    )].1@;
    RowText {
        number: (i + 1) as nat,
        author_email: email,
        lines: lines_cell(lines, share(lines, repo_stats.total_lines.0 as nat)),
        lines_by_file_type: joined(type_lines(type_keys(file_types), lines)),
    }
}

/// The rows of a report, one for each author of the ranking, in its order.
pub open spec fn rows_for(
    repo_stats: &RepoStats,
    sorted_authors: Seq<(&Author, &AuthorStats)>,
    sorted_file_types_by_author: Seq<(&Author, Vec<(&FileType, &NumberOfLines)>)>,
) -> Seq<RowText> {
    Seq::new(
        sorted_authors.len(),
        |i: int| row_for(repo_stats, sorted_authors, sorted_file_types_by_author, i),
    )
}

/// The titles of the columns of a report.
pub open spec fn column_titles() -> Seq<Seq<char>> {
    seq![
        "#"@,
        "Author email"@,
        "Total LoC (Percentage of repo)"@,
        "Top 5 file types by LoC"@,
    ]
}

/// The cells of a row: the number in decimal notation, then the three texts.
pub open spec fn row_cells(row: RowText) -> Seq<Seq<char>> {
    seq![decimal_digits(row.number), row.author_email, row.lines, row.lines_by_file_type]
}

/// The records of a report: the titles of the columns, then the cells of each row.
pub open spec fn report_records(rows: Seq<RowText>) -> Seq<Seq<Seq<char>>> {
    seq![column_titles()] + rows.map_values(|row: RowText| row_cells(row))
}

/// The line above the table of a report.
pub open spec fn header_text(repo_path: Seq<char>) -> Seq<char> {
    "Repository path: "@ + repo_path
}

/// The line below the table of a report.
pub open spec fn footer_text(total_lines: nat) -> Seq<char> {
    "Total number of lines blamed: "@ + grouped_digits(total_lines)
}

/// The texts that the records hold.
pub open spec fn records_text(records: Seq<Vec<String>>) -> Seq<Seq<Seq<char>>> {
    records.map_values(|record: Vec<String>| record@.map_values(|cell: String| cell@))
}

/// The text of the table that `tabled` lays out for the given records, the first of them
/// the titles of the columns, between a header line and a footer line, in the style
/// `modern` and at the given width.
pub uninterp spec fn rendered_table(
    records: Seq<Seq<Seq<char>>>,
    header: Seq<char>,
    footer: Seq<char>,
    width: nat,
) -> Seq<char>;

/// The percentage is the share rounded to the nearest whole number, a half rounded up, and
/// it is 100 at most where the part is no more than the total.
pub proof fn lemma_percentage_rounds_half_up(part: nat, total: nat)
    requires
        total > 0,
    ensures
        part <= total ==> percentage(part, total) <= 100,
        percentage(part, total) < 255 ==> 2 * total * percentage(part, total) <= 200 * part
            + total < 2 * total * (percentage(part, total) + 1),
{
    let rounded = (200 * part + total) / (2 * total);
    assert(2 * total * rounded <= 200 * part + total < 2 * total * (rounded + 1)) by (nonlinear_arith)
        requires
            total > 0,
            rounded == (200 * part + total) / (2 * total),
    ;
    if part <= total {
        assert(rounded <= 100) by (nonlinear_arith)
            requires
                total > 0,
                part <= total,
                2 * total * rounded <= 200 * part + total,
        ;
    }
}

/// The share of `part` in `total` in percent, rounded to the nearest whole number, a half
/// rounded up: the whole number that is at most half a percent above the share and less
/// than half a percent below it. A share of more than 255 percent is given as 255.
pub fn calculate_percentage(part: u32, total: u32) -> (percent: u8)
    requires
        total > 0,
    ensures
        percent == percentage(part as nat, total as nat),
        part <= total ==> percent <= 100,
        percent < 255 ==> 2 * total * percent <= 200 * part + total < 2 * total * (percent + 1),
        percent == 255 ==> 2 * total * 255 <= 200 * part + total,
{
    proof {
        lemma_percentage_rounds_half_up(part as nat, total as nat);
        let rounded = (200 * part + total) / (2 * total);
        assert(2 * total * rounded <= 200 * part + total) by (nonlinear_arith)
            requires
                total > 0,
                rounded == (200 * part + total) / (2 * total),
        ;
        if rounded >= 255 {
            assert(2 * total * 255 <= 2 * total * rounded) by (nonlinear_arith)
                requires
                    total > 0,
                    rounded >= 255,
            ;
        }
    }
    let rounded: u64 = (200 * (part as u64) + (total as u64)) / (2 * (total as u64));
    if rounded > 255 {
        255
    } else {
        rounded as u8
    }
}

/// The percentage, and zero where the total is zero.
fn share_of(part: u32, total: u32) -> (percent: u8)
    ensures
        percent == share(part as nat, total as nat),
{
    if total == 0 {
        0
    } else {
        calculate_percentage(part, total)
    }
}

/// `tabled::Table::from_iter` on the records, `Table::with` for the header, the footer,
/// the style `modern` and the width, to which the widest columns are wrapped first and
/// the narrowest widened first, and then the table's `to_string`. The width is bounded,
/// since the table is widened to it one character at a time.
#[verifier::external_body]
fn render_table(records: Vec<Vec<String>>, header: &str, footer: &str, width: usize) -> (text:
    String)
    requires
        records.len() >= 1,
        records[0].len() >= 1,
        forall|i: int| 0 <= i < records.len() ==> (#[trigger] records[i]).len() == records[0].len(),
        width <= 1000,
    ensures
        text@ == rendered_table(records_text(records@), header@, footer@, width as nat),
{
    let mut table = tabled::Table::from_iter(records);
    table
        .with(tabled::settings::Panel::header(header))
        .with(tabled::settings::Panel::footer(footer))
        .with(tabled::settings::Style::modern())
        .with(tabled::settings::Settings::new(
            tabled::settings::Width::wrap(width).priority::<tabled::settings::peaker::PriorityMax>(),
            tabled::settings::Width::increase(width).priority::<tabled::settings::peaker::PriorityMin>(),
        ));
    table.to_string()
}

/// A line count with its percentage: `1,234 (56%)`.
fn lines_text(lines: u32, percent: u8) -> (text: String)
    ensures
        text@ == lines_cell(lines as nat, percent as nat),
{
    let mut text = grouped_text(lines);
    text.append(" (");
    let digits = decimal_text(percent as u32);
    text.append(digits.as_str());
    text.append("%)");
    text
}

impl TableRow {
    /// The row of an author: the line total is shown with the percentage beside it.
    pub fn new(
        number: u32,
        author_email: &str,
        lines: u32,
        lines_percentage: u8,
        lines_by_file_type: &str,
    ) -> (row: TableRow)
        ensures
            row@ == (RowText {
                number: number as nat,
                author_email: author_email@,
                lines: lines_cell(lines as nat, lines_percentage as nat),
                lines_by_file_type: lines_by_file_type@,
            }),
    {
        TableRow {
            number,
            author_email: author_email.to_owned(),
            lines: lines_text(lines, lines_percentage),
            lines_by_file_type: lines_by_file_type.to_owned(),
        }
    }
}

/// The summary of an author's file types: a line for each of the first five, with the
/// type's line count and its share in the author's lines.
pub fn file_type_summary(file_types: &Vec<(&FileType, &NumberOfLines)>, author_lines: u32) -> (text:
    String)
    ensures
        text@ == joined(type_lines(type_keys(file_types@), author_lines as nat)),
{
    let ghost lines = type_lines(type_keys(file_types@), author_lines as nat);
    let mut text = String::new();
    let mut k: usize = 0;
    proof {
        assert(lines.take(0) =~= Seq::<Seq<char>>::empty());
    }
    while k < file_types.len() && k < 5
        invariant
            k <= file_types.len(),
            k <= 5,
            lines == type_lines(type_keys(file_types@), author_lines as nat),
            text@ == joined(lines.take(k as int)),
        decreases file_types.len() - k,
    {
        let ghost before = text@;
        if k > 0 {
            text.append("\n");
        }
        text.append(file_types[k].0.0.as_str());
        text.append(": ");
        let count = file_types[k].1.0;
        let cell = lines_text(count, share_of(count, author_lines));
        text.append(cell.as_str());
        proof {
            let line = type_line(file_types[k as int].0.0@, count as nat, author_lines as nat);
            assert(lines[k as int] == line);
            assert(lines.take(k + 1).drop_last() =~= lines.take(k as int));
            assert(lines.take(k + 1).last() == line);
            if k > 0 {
                assert(text@ =~= before + "\n"@ + line);
            } else {
                assert(before =~= Seq::<char>::empty());
                assert(text@ =~= line);
            }
        }
        k += 1;
    }
    proof {
        assert(lines.take(k as int) =~= lines);
    }
    text
}

/// The first entry for an author is looked for from `from` on, and is found there or
/// later.
proof fn lemma_author_position_from(
    listing: Seq<(&Author, Vec<(&FileType, &NumberOfLines)>)>,
    email: Seq<char>,
    from: int,
)
    requires
        0 <= from <= listing.len(),
    ensures
        from <= author_position(listing, email, from) <= listing.len(),
    decreases listing.len() - from,
{
    if from < listing.len() && listing[from].0.email@ != email {
        lemma_author_position_from(listing, email, from + 1);
    }
}

/// The file types that the listing gives for the author.
fn file_types_of<'a, 'b>(
    listing: &'a Vec<(&'b Author, Vec<(&'b FileType, &'b NumberOfLines)>)>,
    author: &Author,
) -> (found: &'a Vec<(&'b FileType, &'b NumberOfLines)>)
    requires
        lists_author(listing@, author.email@),
    ensures
        *found == listing[author_position(listing@, author.email@, 0)].1,
{
    let mut i: usize = 0;
    while listing[i].0.email != author.email
        invariant
            i < listing.len(),
            author_position(listing@, author.email@, 0) == author_position(
                listing@,
                author.email@,
                i as int,
            ),
            author_position(listing@, author.email@, 0) < listing.len(),
        decreases listing.len() - i,
    {
        proof {
            lemma_author_position_from(listing@, author.email@, i + 1);
        }
        i += 1;
    }
    &listing[i].1
}

/// The rows of a report: one for each author of the ranking, in its order and numbered
/// from one, with the author's lines and their share in the repository's total, and with
/// the summary of the author's first five file types as the listing gives them.
pub fn table_rows(
    repo_stats: &RepoStats,
    sorted_authors: &[(&Author, &AuthorStats)],
    sorted_file_types_by_author: &Vec<(&Author, Vec<(&FileType, &NumberOfLines)>)>,
) -> (rows: Vec<TableRow>)
    requires
        sorted_authors.len() <= u32::MAX,
        forall|i: int|
            0 <= i < sorted_authors.len() ==> lists_author(
                sorted_file_types_by_author@,
                (#[trigger] sorted_authors[i]).0.email@,
            ),
    ensures
        rows@.map_values(|row: TableRow| row@) == rows_for(
            repo_stats,
            sorted_authors@,
            sorted_file_types_by_author@,
        ),
{
    let mut rows: Vec<TableRow> = Vec::new();
    let mut i: usize = 0;
    while i < sorted_authors.len()
        invariant
            i <= sorted_authors.len(),
            sorted_authors.len() <= u32::MAX,
            rows.len() == i,
            forall|j: int|
                0 <= j < sorted_authors.len() ==> lists_author(
                    sorted_file_types_by_author@,
                    (#[trigger] sorted_authors[j]).0.email@,
                ),
            forall|j: int|
                0 <= j < i ==> (#[trigger] rows[j])@ == row_for(
                    repo_stats,
                    sorted_authors@,
                    sorted_file_types_by_author@,
                    j,
                ),
        decreases sorted_authors.len() - i,
    {
        let author: &Author = sorted_authors[i].0;
        let author_stats: &AuthorStats = sorted_authors[i].1;
        let lines = author_stats.lines.0;
        let file_types = file_types_of(sorted_file_types_by_author, author);
        let summary = file_type_summary(file_types, lines);
        let row = TableRow::new(
            (i + 1) as u32,
            author.email.as_str(),
            lines,
            share_of(lines, repo_stats.total_lines.0),
            summary.as_str(),
        );
        rows.push(row);
        i += 1;
    }
    proof {
        assert(rows@.map_values(|row: TableRow| row@) =~= rows_for(
            repo_stats,
            sorted_authors@,
            sorted_file_types_by_author@,
        ));
    }
    rows
}

/// The titles of the columns of a report.
fn title_record() -> (titles: Vec<String>)
    ensures
        titles@.map_values(|cell: String| cell@) == column_titles(),
{
    let mut titles: Vec<String> = Vec::new();
    titles.push("#".to_owned());
    titles.push("Author email".to_owned());
    titles.push("Total LoC (Percentage of repo)".to_owned());
    titles.push("Top 5 file types by LoC".to_owned());
    proof {
        assert(titles@.map_values(|cell: String| cell@) =~= column_titles());
    }
    titles
}

impl TableDisplay {
    /// The report on a repository: a table with a row for each author of the ranking, below
    /// a line that names the repository's path and above a line that gives the total of
    /// the lines attributed.
    pub fn new(
        repo_path: &str,
        repo_stats: &RepoStats,
        sorted_authors: &[(&Author, &AuthorStats)],
        sorted_file_types_by_author: &Vec<(&Author, Vec<(&FileType, &NumberOfLines)>)>,
    ) -> (display: TableDisplay)
        requires
            sorted_authors.len() <= u32::MAX,
            forall|i: int|
                0 <= i < sorted_authors.len() ==> lists_author(
                    sorted_file_types_by_author@,
                    (#[trigger] sorted_authors[i]).0.email@,
                ),
        ensures
            display.table@ == rendered_table(
                report_records(
                    rows_for(repo_stats, sorted_authors@, sorted_file_types_by_author@),
                ),
                header_text(repo_path@),
                footer_text(repo_stats.total_lines.0 as nat),
                TABLE_WIDTH as nat,
            ),
    {
        let rows = table_rows(repo_stats, sorted_authors, sorted_file_types_by_author);
        let ghost shown = rows@.map_values(|row: TableRow| row@);
        let mut records: Vec<Vec<String>> = Vec::new();
        records.push(title_record());
        let mut i: usize = 0;
        while i < rows.len()
            invariant
                i <= rows.len(),
                records.len() == i + 1,
                shown == rows@.map_values(|row: TableRow| row@),
                records[0]@.map_values(|cell: String| cell@) == column_titles(),
                forall|j: int|
                    0 <= j < i ==> (#[trigger] records[j + 1])@.map_values(|cell: String| cell@)
                        == row_cells(shown[j]),
            decreases rows.len() - i,
        {
            let mut record: Vec<String> = Vec::new();
            record.push(decimal_text(rows[i].number));
            record.push(rows[i].author_email.clone());
            record.push(rows[i].lines.clone());
            record.push(rows[i].lines_by_file_type.clone());
            proof {
                assert(record@.map_values(|cell: String| cell@) =~= row_cells(shown[i as int]));
            }
            records.push(record);
            i += 1;
        }
        let mut header = "Repository path: ".to_owned();
        header.append(repo_path);
        let mut footer = "Total number of lines blamed: ".to_owned();
        let total = grouped_text(repo_stats.total_lines.0);
        footer.append(total.as_str());
        proof {
            assert(records_text(records@) =~= report_records(shown)) by {
                assert forall|j: int| 0 <= j < records.len() implies records_text(records@)[j]
                    == report_records(shown)[j] by {
                    if j > 0 {
                        assert(records[(j - 1) + 1]@.map_values(|cell: String| cell@)
                            == row_cells(shown[j - 1]));
                    }
                }
            }
            assert forall|j: int| 0 <= j < records.len() implies (#[trigger] records[j]).len()
                == records[0].len() by {
                assert(column_titles().len() == 4);
                if j > 0 {
                    assert(records[(j - 1) + 1]@.map_values(|cell: String| cell@)
                        == row_cells(shown[j - 1]));
                    assert(row_cells(shown[j - 1]).len() == 4);
                }
            }
        }
        TableDisplay { table: render_table(records, header.as_str(), footer.as_str(), TABLE_WIDTH) }
    }

    /// The report as text.
    pub fn to_text(&self) -> (text: String)
        ensures
            text@ == self.table@,
    {
        self.table.clone()
    }
}

} // verus!
