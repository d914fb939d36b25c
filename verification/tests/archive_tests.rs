use mdrender::archive::{
    extract_leading_number, format_archive_folder_name, next_sequence, output_entries_to_clean,
    plan_archive, ArchiveError,
};

#[test]
fn test_extract_leading_number() {
    assert_eq!(extract_leading_number("001_Tutorials"), Some(1));
    assert_eq!(extract_leading_number("042_Advanced"), Some(42));
    assert_eq!(extract_leading_number("123"), Some(123));
    assert_eq!(extract_leading_number("GraphTutorials"), None);
    assert_eq!(extract_leading_number("no_numbers_here"), None);
}

#[test]
fn test_format_archive_folder_name() {
    assert_eq!(format_archive_folder_name("GraphTutorials", 3), "003_GraphTutorials");
    assert_eq!(format_archive_folder_name("001_GraphTutorials", 5), "005_GraphTutorials");
    assert_eq!(format_archive_folder_name("My Notes & Docs", 1), "001_My_Notes___Docs");
}

#[test]
fn leading_number_limits() {
    assert_eq!(extract_leading_number(""), None);
    assert_eq!(extract_leading_number("4294967295_max"), Some(u32::MAX));
    assert_eq!(extract_leading_number("4294967296_over"), None);
    assert_eq!(extract_leading_number("99999999999999999999"), None);
    assert_eq!(extract_leading_number("0007"), Some(7));
    assert_eq!(extract_leading_number("+5"), None);
}

#[test]
fn folder_name_edge_cases() {
    assert_eq!(format_archive_folder_name("", 1), "001_Archive");
    assert_eq!(format_archive_folder_name("   ", 12), "012_Archive");
    assert_eq!(format_archive_folder_name("12_", 7), "007_Archive");
    assert_eq!(format_archive_folder_name("_Lead", 2), "002__Lead");
    assert_eq!(format_archive_folder_name("v1_Notes", 2), "002_v1_Notes");
    assert_eq!(format_archive_folder_name("  Trim me  ", 1234), "1234_Trim_me");
    assert_eq!(format_archive_folder_name("Grüße-Welt", 9), "009_Grüße-Welt");
    assert_eq!(format_archive_folder_name("a/b", 100), "100_a_b");
}

#[test]
fn folder_number_reads_back() {
    for (name, seq) in [("GraphTutorials", 3u32), ("", 0), ("x", 999), ("007_Bond", 4294967295)] {
        let folder = format_archive_folder_name(name, seq);
        assert_eq!(extract_leading_number(&folder), Some(seq));
    }
}

#[test]
fn renumbering_keeps_label() {
    let once = format_archive_folder_name("My Notes", 3);
    assert_eq!(format_archive_folder_name(&once, 8), format_archive_folder_name("My Notes", 8));
    assert_eq!(format_archive_folder_name(&once, 8), "008_My_Notes");
}

#[test]
fn next_sequence_after_largest() {
    let names: Vec<String> = vec![];
    assert_eq!(next_sequence(&names), 1);
    let names = vec![
        "002_RustBasics".to_string(),
        "notes".to_string(),
        "006_GraphTutorials".to_string(),
        "004_asic".to_string(),
    ];
    assert_eq!(next_sequence(&names), 7);
}

#[test]
fn archive_refused_without_folders() {
    let names: Vec<String> = vec![];
    assert!(matches!(plan_archive("X", &names, false, false, false), Err(ArchiveError::NothingToArchive)));
}

#[test]
fn archive_plan_decisions() {
    let names = vec!["001_A".to_string()];
    let plan = plan_archive("GraphTutorials", &names, true, false, true).ok().unwrap();
    assert_eq!(plan.sequence, 2);
    assert_eq!(plan.folder_name, "002_GraphTutorials");
    assert!(plan.copy_input);
    assert!(!plan.copy_output);
    assert!(!plan.clean);
    let plan = plan_archive("x", &names, false, true, false).ok().unwrap();
    assert!(!plan.copy_input && plan.copy_output && plan.clean);
}

#[test]
fn cleaning_keeps_assets() {
    let names = vec![
        "index.html".to_string(),
        "assets".to_string(),
        "guide".to_string(),
        "assets2".to_string(),
    ];
    assert_eq!(output_entries_to_clean(&names), vec![0, 2, 3]);
    let none: Vec<String> = vec!["assets".to_string()];
    assert!(output_entries_to_clean(&none).is_empty());
}
