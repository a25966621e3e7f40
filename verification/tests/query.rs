use download_stats::format::format_number;
use download_stats::query::{table_line, ExportKind, ExportTable, QueryKind, SourceFilter};

#[test]
fn source_filter_reads_the_two_sources_and_takes_the_rest_as_all() {
    assert_eq!(SourceFilter::parse("github"), SourceFilter::Github);
    assert_eq!(SourceFilter::parse("crates"), SourceFilter::Crates);
    assert_eq!(SourceFilter::parse("all"), SourceFilter::All);
    assert_eq!(SourceFilter::parse(""), SourceFilter::All);
    assert_eq!(SourceFilter::parse("GitHub"), SourceFilter::All);
    assert_eq!(SourceFilter::parse("crates "), SourceFilter::All);
}

#[test]
fn source_filter_descriptions() {
    assert_eq!(SourceFilter::Github.description(), "GitHub releases (tracked period)");
    assert_eq!(SourceFilter::Crates.description(), "crates.io (last year)");
    assert_eq!(SourceFilter::All.description(), "All sources");
}

#[test]
fn export_table_reads_three_names() {
    assert_eq!(ExportTable::parse("weekly").unwrap(), ExportTable::Weekly);
    assert_eq!(ExportTable::parse("daily").unwrap(), ExportTable::Daily);
    assert_eq!(ExportTable::parse("github").unwrap(), ExportTable::Github);
}

#[test]
fn export_table_rejects_other_names() {
    for name in ["all", "", "Weekly", "crates"] {
        let error = ExportTable::parse(name).unwrap_err();
        assert_eq!(error.table, name);
        assert_eq!(
            error.message(),
            format!("Unknown table type: {}. Use 'weekly', 'daily', or 'github'", name)
        );
    }
}

#[test]
fn kinds_carry_their_arguments() {
    let query = QueryKind::Weekly { limit: 12, source: "all".to_string() };
    match query {
        QueryKind::Weekly { limit, source } => {
            assert_eq!(limit, 12);
            assert_eq!(SourceFilter::parse(&source), SourceFilter::All);
        }
        _ => unreachable!(),
    }
    assert!(matches!(QueryKind::Total { source: "github".to_string() }, QueryKind::Total { .. }));
    assert!(matches!(QueryKind::Latest, QueryKind::Latest));
    let export = ExportKind::Csv { output: "out.csv".to_string(), table: "weekly".to_string() };
    match export {
        ExportKind::Csv { output, table } => {
            assert_eq!(output, "out.csv");
            assert_eq!(ExportTable::parse(&table).unwrap(), ExportTable::Weekly);
        }
        ExportKind::Json { .. } => unreachable!(),
    }
    assert!(matches!(
        ExportKind::Json { output: "o".to_string(), table: "daily".to_string() },
        ExportKind::Json { .. }
    ));
}

#[test]
fn table_lines_are_aligned() {
    assert_eq!(table_line("Week", "Downloads"), "Week               Downloads");
    assert_eq!(table_line("Week", "Downloads"), format!("{:<12} {:>15}", "Week", "Downloads"));
    assert_eq!(
        table_line("2025-11-17", &format_number(1_234_567)),
        "2025-11-17         1,234,567"
    );
    for (week, downloads) in [
        ("", ""),
        ("2025-11-17", "0"),
        ("exactly-12ch", "exactly-15-char"),
        ("longer than twelve", "longer than fifteen characters"),
        ("wöche", "zähler"),
    ] {
        assert_eq!(table_line(week, downloads), format!("{:<12} {:>15}", week, downloads));
    }
}
