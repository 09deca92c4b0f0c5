use booklet::error::BookletError;
use booklet::text::{
    booklet_file_name, contains_text, decimal_string, default_output_name, imposes, parse_usize,
    requested_pages_per_booklet, same_text, sheet_size, starts_with_text, success_message, SheetSize,
};

#[test]
fn prefix_and_infix() {
    assert!(starts_with_text("Reorder only", "Reorder"));
    assert!(!starts_with_text("Reord", "Reorder"));
    assert!(starts_with_text("abc", ""));
    assert!(contains_text("Impose on A3", "A3"));
    assert!(contains_text("A3", "A3"));
    assert!(!contains_text("Impose on A4", "A3"));
    assert!(contains_text("", ""));
    assert!(!contains_text("", "x"));
    assert!(same_text("All in one", "All in one"));
    assert!(!same_text("All in one", "All in on"));
}

#[test]
fn parse_numbers_like_std() {
    for s in ["0", "12", "+7", "007", "18446744073709551615", "18446744073709551616", "", "+", "-3", "1 2", "x"] {
        assert_eq!(parse_usize(s), s.parse::<usize>().ok(), "{}", s);
    }
}

#[test]
fn size_choice() {
    assert_eq!(requested_pages_per_booklet("All in one"), 0);
    assert_eq!(requested_pages_per_booklet("16"), 16);
    assert_eq!(requested_pages_per_booklet("twelve"), 0);
    assert_eq!(requested_pages_per_booklet(""), 0);
}

#[test]
fn output_modes() {
    assert!(!imposes("Reorder only"));
    assert!(imposes("2-up A4"));
    assert!(imposes("reorder"));
    assert_eq!(sheet_size("2-up A3"), SheetSize { width: 1190, height: 842 });
    assert_eq!(sheet_size("2-up Letter"), SheetSize { width: 792, height: 612 });
    assert_eq!(sheet_size("2-up A4"), SheetSize { width: 842, height: 595 });
    assert_eq!(sheet_size("A3 Letter"), SheetSize { width: 1190, height: 842 });
}

#[test]
fn decimal_numerals() {
    for n in [0usize, 1, 9, 10, 42, 100, 12345, usize::MAX] {
        assert_eq!(decimal_string(n), n.to_string());
    }
}

#[test]
fn messages_and_names() {
    assert_eq!(success_message(1), "Success! Created 1 file(s).");
    assert_eq!(success_message(12), "Success! Created 12 file(s).");
    assert_eq!(booklet_file_name("out", 0), "out_1.pdf");
    assert_eq!(booklet_file_name("my book", 9), "my book_10.pdf");
    assert_eq!(default_output_name("report"), "report_booklet.pdf");
}

#[test]
fn error_messages() {
    assert_eq!(BookletError::NoPages.message(), "PDF has no pages");
    assert_eq!(BookletError::InvalidPagesPerBooklet.message(), "Invalid pages per booklet");
    assert_eq!(BookletError::NoRootInTrailer.message(), "No Root in trailer");
    assert_eq!(BookletError::RootNotReference.message(), "Root is not a reference");
    assert_eq!(BookletError::CatalogNotDictionary.message(), "Catalog is not a dictionary");
    assert_eq!(BookletError::ObjectNumbersExhausted.message(), "No object number left");
    assert_eq!(BookletError::RotationOutOfRange.message(), "Page rotation out of range");
    assert_eq!(BookletError::SaveFailed.message(), "Save failed");
}
