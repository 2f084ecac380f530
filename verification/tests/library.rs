use sem::analyze::{
    classify_analysis_token, get_week_date_range, month_breakdown, parse_week_input,
    transactions_for_date, weekly_totals, AnalysisKind,
};
use sem::error::SemError;
use sem::expense::{build_expense, category_labels, Categories, Expense};
use sem::money::{format_inr, format_inr_total};
use sem::stats::{calculate_total_expenses, recent_transactions, summary_table};
use sem::store::{
    append_chunk, append_to_store, apply_save_decision, header_line, init_content, parse_store,
    render_store, serialize_expense, store_file_name,
};
use sem::dates::month_to_name;

fn expense(date: &str, cents: i64, category: &str, notes: &str) -> Expense {
    Expense {
        date: date.to_string(),
        amount: cents,
        category: category.to_string(),
        notes: notes.to_string(),
    }
}

#[test]
fn currency_formatting_examples() {
    assert_eq!(format_inr(123456780), "12,34,567.80");
    assert_eq!(format_inr(99900), "999.00");
    assert_eq!(format_inr(0), "0.00");
    assert_eq!(format_inr(100000), "1,000.00");
}

#[test]
fn currency_formatting_more_groups() {
    assert_eq!(format_inr(12345678901), "12,34,56,789.01");
    assert_eq!(format_inr(-123456780), "-12,34,567.80");
    assert_eq!(format_inr_total(123456780), "12,34,567.80");
}

#[test]
fn month_label_examples() {
    assert_eq!(month_to_name("2023-05"), "May");
    assert_eq!(month_to_name("2023-01"), "January");
    assert_eq!(month_to_name("not-a-month"), "not-a-month");
    assert_eq!(month_to_name("2023-13"), "2023-13");
}

#[test]
fn classifier_examples() {
    assert_eq!(classify_analysis_token("2023-05:4"), AnalysisKind::Week);
    assert_eq!(classify_analysis_token("2023-05"), AnalysisKind::Month);
    assert_eq!(classify_analysis_token("2023-05-10"), AnalysisKind::Date);
    assert_eq!(classify_analysis_token("abcdefg"), AnalysisKind::Month);
}

#[test]
fn week_input_parsing() {
    assert_eq!(parse_week_input("2023-05:4"), Some((2023, 5, 4)));
    assert_eq!(parse_week_input("2023-05-10:4"), Some((2023, 5, 4)));
    assert_eq!(parse_week_input("2023-05:4:9"), Some((2023, 5, 4)));
    assert_eq!(parse_week_input("garbage"), None);
    assert_eq!(parse_week_input("2023:4"), None);
    assert_eq!(parse_week_input("2023-05"), None);
}

#[test]
fn week_date_range_boundaries() {
    let (s1, e1) = get_week_date_range(2023, 5, 1).unwrap();
    assert_eq!((s1.year, s1.month, s1.day), (2023, 5, 1));
    assert_eq!((e1.year, e1.month, e1.day), (2023, 5, 7));
    let (s2, e2) = get_week_date_range(2023, 5, 2).unwrap();
    assert_eq!((s2.year, s2.month, s2.day), (2023, 5, 8));
    assert_eq!((e2.year, e2.month, e2.day), (2023, 5, 14));
    let (s5, e5) = get_week_date_range(2023, 5, 5).unwrap();
    assert_eq!((s5.year, s5.month, s5.day), (2023, 5, 29));
    assert_eq!((e5.year, e5.month, e5.day), (2023, 6, 4));
    assert!(get_week_date_range(2023, 5, 6).is_none());
    assert!(get_week_date_range(2023, 5, 0).is_none());
    assert!(get_week_date_range(2023, 13, 1).is_none());
}

#[test]
fn weekly_totals_invalid_selector() {
    let es = vec![expense("2023-05-01", 1000, "Food", " ")];
    let err = weekly_totals(&es, 2023, 5, 6).unwrap_err();
    assert_eq!(err, SemError::InvalidWeekSelector);
    assert_eq!(
        err.message(),
        "Invalid week number for the given month and year."
    );
}

#[test]
fn weekly_totals_day_rows() {
    let es = vec![
        expense("2023-05-01", 1050, "Food", "a"),
        expense("2023-05-01", 950, "Car", "b"),
        expense("2023-05-03", 500, "Food", "c"),
        expense("2023-05-08", 700, "Food", "next week"),
    ];
    let rows = weekly_totals(&es, 2023, 5, 1).unwrap();
    assert_eq!(rows.len(), 7);
    assert_eq!(rows[0].name, "Monday");
    assert_eq!(rows[0].total, 2000);
    assert_eq!(rows[0].text, "20.00");
    let mut with_tail = es.clone();
    with_tail.push(expense("2023-05-01x", 111, "Misc", "prefix match"));
    let rows2 = weekly_totals(&with_tail, 2023, 5, 1).unwrap();
    assert_eq!(rows2[0].total, 2111);
    assert_eq!(rows[1].name, "Tuesday");
    assert_eq!(rows[1].total, 0);
    assert_eq!(rows[2].name, "Wednesday");
    assert_eq!(rows[2].total, 500);
    assert_eq!(rows[6].name, "Sunday");
}

#[test]
fn month_breakdown_relative_week_labels() {
    // 2023-05-01 lies in ISO week 18; 2023-05-08 lies in ISO week 19.
    let es = vec![
        expense("2023-05-01", 1000, "Food", "first"),
        expense("2023-05-08", 2500, "Food", "second"),
    ];
    let rows = month_breakdown(&es, "2023-05");
    assert_eq!(rows.len(), 2);
    assert_eq!(rows[0].week, 1);
    assert_eq!(rows[0].label, "Week 0");
    assert_eq!(rows[0].total, 1000);
    assert_eq!(rows[1].week, 2);
    assert_eq!(rows[1].label, "Week 1");
    assert_eq!(rows[1].total, 2500);
    assert_eq!(rows[1].text, "25.00");
}

#[test]
fn month_breakdown_bad_token() {
    let es = vec![expense("2023-05-01", 1000, "Food", " ")];
    assert!(month_breakdown(&es, "abcdefg").is_empty());
}

#[test]
fn recent_transactions_last_five() {
    let mut es = Vec::new();
    for i in 1..=8 {
        es.push(expense(&format!("2023-05-0{}", i), i * 100, "Food", "n"));
    }
    let recent = recent_transactions(&es);
    assert_eq!(recent.len(), 5);
    assert_eq!(recent[0].date, "2023-05-08");
    assert_eq!(recent[0].amount, 800);
    assert_eq!(recent[4].date, "2023-05-04");
}

#[test]
fn recent_transactions_short_history() {
    let es = vec![expense("2023-05-01", 100, "Food", "n")];
    let recent = recent_transactions(&es);
    assert_eq!(recent.len(), 1);
    assert_eq!(recent[0].date, "2023-05-01");
}

#[test]
fn decline_path_not_saved() {
    let e = expense("2023-05-01", 19950, "Food", "Lunch with team");
    let content = init_content();
    let r = apply_save_decision(false, &content, &e);
    let err = r.unwrap_err();
    assert_eq!(err, SemError::NotSaved);
    assert_eq!(err.message(), "Expense not saved");
}

#[test]
fn confirm_path_appends() {
    let e = expense("2023-05-01", 19950, "Food", "Lunch with team");
    let content = init_content();
    let new_content = apply_save_decision(true, &content, &e).unwrap();
    assert_eq!(
        new_content,
        "date,amount,category,notes\n2023-05-01,199.50,Food,Lunch with team\n"
    );
}

#[test]
fn header_invariant_on_new_stores() {
    assert_eq!(init_content(), "date,amount,category,notes\n");
    assert_eq!(header_line(), "date,amount,category,notes");
    let e = expense("2023-05-01", 100, "Food", " ");
    let chunk = append_chunk(false, &e);
    assert!(chunk.starts_with("date,amount,category,notes\n"));
    let chunk2 = append_chunk(true, &e);
    assert!(!chunk2.contains("date,amount,category,notes"));
}

#[test]
fn malformed_row_tolerance() {
    let content = "date,amount,category,notes\n\
                   2023-05-01,10.00,Food,a\n\
                   2023-05-02,20.00,Car,b\n\
                   this row is broken\n\
                   2023-05-03,30.00,Misc,c\n\
                   2023-05-04,40.00,Food,d\n\
                   2023-05-05,50.00,Housing,e\n";
    let parsed = parse_store(content);
    assert_eq!(parsed.records.len(), 5);
    assert_eq!(parsed.skipped, 1);
    assert_eq!(parsed.records[0].amount, 1000);
    assert_eq!(parsed.records[4].category, "Housing");
}

#[test]
fn round_trip_store() {
    let es = vec![
        expense("2023-05-01", 19950, "Food", "Lunch with team"),
        expense("2023-05-02", -500, "Misc", "refund, partial"),
        expense("2023-05-03", 123456780, "Housing", "quote \"rent\""),
        expense("2023-06-01", 1, "Car", ""),
    ];
    let content = render_store(&es);
    let parsed = parse_store(&content);
    assert_eq!(parsed.skipped, 0);
    assert_eq!(parsed.records.len(), es.len());
    for (a, b) in es.iter().zip(parsed.records.iter()) {
        assert_eq!(a.date, b.date);
        assert_eq!(a.amount, b.amount);
        assert_eq!(a.category, b.category);
        assert_eq!(a.notes, b.notes);
    }
}

#[test]
fn append_only_growth() {
    let mut content = init_content();
    for i in 1..=3 {
        content = append_to_store(&content, &expense("2023-05-01", i * 100, "Food", "x"));
    }
    let before = parse_store(&content);
    assert_eq!(before.records.len(), 3);
    let content2 = append_to_store(&content, &expense("2023-05-09", 999, "Car", "y"));
    let after = parse_store(&content2);
    assert_eq!(after.records.len(), 4);
    for i in 0..3 {
        assert_eq!(after.records[i].amount, before.records[i].amount);
        assert_eq!(after.records[i].date, before.records[i].date);
    }
    assert_eq!(after.records[3].amount, 999);
    assert_eq!(after.skipped, 0);
}

#[test]
fn serialized_row_quotes_commas() {
    let e = expense("2023-05-01", 1234, "Food", "tea, and cake");
    let line = serialize_expense(&e);
    assert_eq!(line, "2023-05-01,12.34,Food,\"tea, and cake\"");
}

#[test]
fn summary_table_totals_cross_check() {
    let es = vec![
        expense("2023-04-10", 100000, "Food", "a"),
        expense("2023-05-01", 700000, "Food", "b"),
        expense("2023-05-02", 50000, "Car", "c"),
    ];
    let t = summary_table(&es);
    assert_eq!(t.month_names, vec!["April", "May"]);
    assert_eq!(t.rows.len(), 2);
    assert_eq!(t.rows[0].category, "Food");
    assert_eq!(t.rows[0].cells[0].text, "1,000.00");
    assert!(!t.rows[0].cells[0].high);
    assert_eq!(t.rows[0].cells[1].text, "7,000.00");
    assert!(t.rows[0].cells[1].high);
    assert_eq!(t.rows[0].total, "8,000.00");
    assert_eq!(t.rows[1].category, "Car");
    assert_eq!(t.rows[1].total, "500.00");
    assert_eq!(t.month_totals, vec!["1,000.00", "7,500.00"]);
    assert_eq!(t.grand_total, "8,500.00");
}

#[test]
fn total_expenses_sums_everything() {
    let es = vec![
        expense("2023-05-01", 100, "Food", "a"),
        expense("bad-date", 900, "Car", "still counted"),
    ];
    assert_eq!(calculate_total_expenses(&es), 1000);
}

#[test]
fn transactions_for_one_date() {
    let es = vec![
        expense("2023-05-01", 100, "Food", "a"),
        expense("2023-05-02", 200, "Car", "b"),
        expense("2023-05-01", 300, "Misc", "c"),
    ];
    let hits = transactions_for_date(&es, "2023-05-01");
    assert_eq!(hits.len(), 2);
    assert_eq!(hits[0].notes, "a");
    assert_eq!(hits[1].notes, "c");
}

#[test]
fn build_expense_success_and_errors() {
    let e = build_expense("2023-05-01".to_string(), "12.34", 1, "note".to_string()).unwrap();
    assert_eq!(e.amount, 1234);
    assert_eq!(e.category, "Food");
    assert_eq!(e.date, "2023-05-01");
    let e2 = build_expense("2023-05-01".to_string(), "7", 0, " ".to_string()).unwrap();
    assert_eq!(e2.amount, 700);
    assert_eq!(e2.category, "Fashion");
    let neg = build_expense("x".to_string(), "-0.5", 5, " ".to_string()).unwrap();
    assert_eq!(neg.amount, -50);
    assert_eq!(neg.category, "Housing");
    assert_eq!(
        build_expense("x".to_string(), "abc", 0, " ".to_string()).unwrap_err(),
        SemError::InvalidInput
    );
    assert_eq!(
        build_expense("x".to_string(), "1.0", 6, " ".to_string()).unwrap_err(),
        SemError::InvalidInput
    );
    assert_eq!(
        build_expense("x".to_string(), "123456789012345", 0, " ".to_string()).unwrap_err(),
        SemError::InvalidInput
    );
    assert_eq!(
        build_expense("bad\nline".to_string(), "1", 0, " ".to_string()).unwrap_err(),
        SemError::InvalidInput
    );
}

#[test]
fn category_vocabulary() {
    let labels = category_labels();
    assert_eq!(
        labels,
        vec!["Fashion", "Food", "Car", "Misc", "Groceries", "Housing"]
    );
    assert_eq!(Categories::Groceries.label(), "Groceries");
}

#[test]
fn error_messages() {
    assert_eq!(SemError::InvalidInput.message(), "Please enter a valid number");
    assert_eq!(
        SemError::StorageUnavailable.message(),
        "The expense store cannot be opened or written"
    );
    assert_eq!(
        SemError::MalformedRecord.message(),
        "A row of the expense store is malformed"
    );
}

#[test]
fn store_file_name_per_year() {
    assert_eq!(store_file_name(2023), "expenses-2023.csv");
    assert_eq!(store_file_name(987), "expenses-0987.csv");
}

#[test]
fn strict_mode_rejects_malformed_rows() {
    let good = "date,amount,category,notes\n2023-05-01,10.00,Food,a\n";
    let bad = "date,amount,category,notes\n2023-05-01,10.00,Food,a\nbroken row\n";
    let records = sem::store::parse_store_strict(good).unwrap();
    assert_eq!(records.len(), 1);
    assert_eq!(
        sem::store::parse_store_strict(bad).unwrap_err(),
        sem::error::SemError::MalformedRecord
    );
}

#[test]
fn amount_text_grammar_edges() {
    let e = build_expense("x".to_string(), "5.", 0, " ".to_string()).unwrap();
    assert_eq!(e.amount, 500);
    let e2 = build_expense("x".to_string(), "5.4", 0, " ".to_string()).unwrap();
    assert_eq!(e2.amount, 540);
    assert_eq!(
        build_expense("x".to_string(), ".5", 0, " ".to_string()).unwrap_err(),
        SemError::InvalidInput
    );
    assert_eq!(
        build_expense("x".to_string(), "1.234", 0, " ".to_string()).unwrap_err(),
        SemError::InvalidInput
    );
}

#[test]
fn summary_months_ordered_across_years() {
    let es = vec![
        expense("2023-01-05", 100, "Food", "a"),
        expense("2022-12-31", 200, "Food", "b"),
    ];
    let t = summary_table(&es);
    assert_eq!(t.month_names, vec!["December", "January"]);
    assert_eq!(t.months[0].year, 2022);
    assert_eq!(t.months[1].year, 2023);
}
