use spreadsheet::common_types::{ComputeError, Index, Numeric, Value};
use spreadsheet::editor::{classify_edit, Edit};
use spreadsheet::spreadsheet::SpreadSheet;

/// Numbers of the sheet as `f64`, the way the spreadsheet program computes them.
#[derive(Clone, Copy, Debug, PartialEq)]
struct F(f64);

impl Numeric for F {
    fn from_decimal(text: &str) -> Self {
        F(text.parse().unwrap())
    }
    fn from_count(n: usize) -> Self {
        F(n as f64)
    }
    fn zero() -> Self {
        F(0.0)
    }
    fn one() -> Self {
        F(1.0)
    }
    fn add(&self, other: &Self) -> Self {
        F(self.0 + other.0)
    }
    fn sub(&self, other: &Self) -> Self {
        F(self.0 - other.0)
    }
    fn mul(&self, other: &Self) -> Self {
        F(self.0 * other.0)
    }
    fn div(&self, other: &Self) -> Self {
        F(self.0 / other.0)
    }
    fn max(&self, other: &Self) -> Self {
        F(f64::max(self.0, other.0))
    }
    fn min(&self, other: &Self) -> Self {
        F(f64::min(self.0, other.0))
    }
    fn round(&self) -> Self {
        F(self.0.round())
    }
    fn pow(&self, exponent: &Self) -> Self {
        F(self.0.powf(exponent.0))
    }
    fn random() -> Self {
        F(rand::random::<f64>())
    }
    fn gt(&self, other: &Self) -> bool {
        self.0 > other.0
    }
    fn lt(&self, other: &Self) -> bool {
        self.0 < other.0
    }
    fn ge(&self, other: &Self) -> bool {
        self.0 >= other.0
    }
    fn le(&self, other: &Self) -> bool {
        self.0 <= other.0
    }
    fn equals(&self, other: &Self) -> bool {
        self.0 == other.0
    }
    fn to_text(&self) -> String {
        self.0.to_string()
    }
}

fn at(x: usize, y: usize) -> Index {
    Index { x, y }
}

fn number_at(sheet: &SpreadSheet<F>, i: Index) -> f64 {
    match sheet.get_computed(i) {
        Some(Ok(Value::Number(F(n)))) => n,
        other => panic!("expected a number at {i:?}, got {other:?}"),
    }
}

#[test]
fn added_text_reads_back() {
    let mut sheet = SpreadSheet::<F>::default();
    assert_eq!(sheet.get_raw(&at(0, 0)), None);
    sheet.add_cell_and_compute(at(0, 0), "=B1 + 1".to_string());
    sheet.add_cell_and_compute(at(1, 0), "41".to_string());
    assert_eq!(sheet.get_raw(&at(0, 0)), Some("=B1 + 1"));
    assert_eq!(sheet.get_raw(&at(1, 0)), Some("41"));
    assert_eq!(number_at(&sheet, at(0, 0)), 42.0);
    sheet.mutate_cell(at(1, 0), "1".to_string());
    assert_eq!(sheet.get_raw(&at(1, 0)), Some("1"));
    assert_eq!(sheet.get_raw(&at(0, 0)), Some("=B1 + 1"));
    assert_eq!(number_at(&sheet, at(0, 0)), 2.0);
    sheet.remove_cell(at(1, 0));
    assert_eq!(sheet.get_raw(&at(1, 0)), None);
    assert_eq!(sheet.get_raw(&at(0, 0)), Some("=B1 + 1"));
}

#[test]
fn get_text_shows_values_and_errors() {
    let mut sheet = SpreadSheet::<F>::default();
    sheet.add_cell_and_compute(at(0, 0), "2.5".to_string());
    sheet.add_cell_and_compute(at(1, 0), "words".to_string());
    sheet.add_cell_and_compute(at(2, 0), "=TRUE".to_string());
    sheet.add_cell_and_compute(at(3, 0), "=FALSE".to_string());
    sheet.add_cell_and_compute(at(4, 0), "=A1 +".to_string());
    sheet.add_cell_and_compute(at(5, 0), "=A1 + B1".to_string());
    sheet.add_cell_and_compute(at(6, 0), "=Q7".to_string());
    sheet.add_cell_and_compute(at(7, 0), "=H1".to_string());
    sheet.add_cell_and_compute(at(8, 0), "=what(1)".to_string());
    sheet.add_cell_and_compute(at(9, 0), "=round(1, 2)".to_string());
    assert_eq!(sheet.get_text(at(0, 0)), "2.5");
    assert_eq!(sheet.get_text(at(1, 0)), "words");
    assert_eq!(sheet.get_text(at(2, 0)), "TRUE");
    assert_eq!(sheet.get_text(at(3, 0)), "FALSE");
    assert_eq!(sheet.get_text(at(4, 0)), "!PARSE ERROR!");
    assert_eq!(sheet.get_text(at(5, 0)), "!TYPE ERROR!");
    assert_eq!(sheet.get_text(at(6, 0)), "!REFERENCE ERROR!");
    assert_eq!(sheet.get_text(at(7, 0)), "!CYCLIC REFERENCE!");
    assert_eq!(sheet.get_text(at(8, 0)), "!UNKNOWN FUNCTION!");
    assert_eq!(sheet.get_text(at(9, 0)), "!INVALID ARGUMENT!");
    assert_eq!(sheet.get_text(at(0, 9)), "");
}

#[test]
fn a_parse_error_carries_its_message() {
    let mut sheet = SpreadSheet::<F>::default();
    sheet.add_cell_and_compute(at(0, 0), "=1 +* 2".to_string());
    assert!(matches!(
        sheet.get_computed(at(0, 0)),
        Some(Err(ComputeError::ParseError(ref m))) if m == "Unexpected Token"
    ));
    sheet.add_cell_and_compute(at(0, 1), "7x".to_string());
    assert!(matches!(
        sheet.get_computed(at(0, 1)),
        Some(Err(ComputeError::ParseError(ref m))) if m == "Had error: -invalid float literal- parsing number 7x"
    ));
}

#[test]
fn a_change_reaches_every_dependant_in_order() {
    let mut sheet = SpreadSheet::<F>::default();
    // A chain A1 <- A2 <- A3 <- A4, and A4 also refers to A1 directly.
    sheet.add_cell_and_compute(at(0, 3), "=A3 + A1".to_string());
    sheet.add_cell_and_compute(at(0, 2), "=A2 * 10".to_string());
    sheet.add_cell_and_compute(at(0, 1), "=A1 + 1".to_string());
    sheet.add_cell_and_compute(at(0, 0), "1".to_string());
    assert_eq!(number_at(&sheet, at(0, 1)), 2.0);
    assert_eq!(number_at(&sheet, at(0, 2)), 20.0);
    assert_eq!(number_at(&sheet, at(0, 3)), 21.0);
    sheet.mutate_cell(at(0, 0), "5".to_string());
    assert_eq!(number_at(&sheet, at(0, 1)), 6.0);
    assert_eq!(number_at(&sheet, at(0, 2)), 60.0);
    assert_eq!(number_at(&sheet, at(0, 3)), 65.0);
}

#[test]
fn a_cycle_shows_the_cycle_error_and_breaking_it_recovers() {
    let mut sheet = SpreadSheet::<F>::default();
    sheet.add_cell_and_compute(at(0, 0), "=B1 + 1".to_string());
    sheet.add_cell_and_compute(at(1, 0), "=A1 + 1".to_string());
    sheet.add_cell_and_compute(at(2, 0), "=B1 * 2".to_string());
    assert!(matches!(sheet.get_computed(at(0, 0)), Some(Err(ComputeError::Cycle))));
    assert!(matches!(sheet.get_computed(at(1, 0)), Some(Err(ComputeError::Cycle))));
    sheet.mutate_cell(at(1, 0), "3".to_string());
    assert_eq!(number_at(&sheet, at(1, 0)), 3.0);
    assert_eq!(number_at(&sheet, at(0, 0)), 4.0);
    assert_eq!(number_at(&sheet, at(2, 0)), 6.0);
}

#[test]
fn removing_a_cell_updates_its_dependants() {
    let mut sheet = SpreadSheet::<F>::default();
    sheet.add_cell_and_compute(at(0, 0), "3".to_string());
    sheet.add_cell_and_compute(at(0, 1), "=sum(A1:A1) + 1".to_string());
    assert_eq!(number_at(&sheet, at(0, 1)), 4.0);
    sheet.remove_cell(at(0, 0));
    assert_eq!(number_at(&sheet, at(0, 1)), 1.0);
    // Removing a cell that is not there changes nothing.
    sheet.remove_cell(at(7, 7));
    assert_eq!(number_at(&sheet, at(0, 1)), 1.0);
}

#[test]
fn adding_over_a_cell_replaces_it() {
    let mut sheet = SpreadSheet::<F>::default();
    sheet.add_cell_and_compute(at(0, 0), "1".to_string());
    sheet.add_cell_and_compute(at(0, 0), "2".to_string());
    assert_eq!(sheet.get_raw(&at(0, 0)), Some("2"));
    assert_eq!(number_at(&sheet, at(0, 0)), 2.0);
}

#[test]
fn a_sheet_read_from_text() {
    let text = " 1 | 2 |=A1+B1\r\n\n  | hello |\t=A1*10\nlast\r";
    assert!(SpreadSheet::<F>::text_is_readable(text));
    let mut sheet = SpreadSheet::<F>::from_text(text);
    assert_eq!(sheet.get_raw(&at(0, 0)), Some("1"));
    assert_eq!(sheet.get_raw(&at(1, 0)), Some("2"));
    assert_eq!(sheet.get_raw(&at(2, 0)), Some("=A1+B1"));
    assert_eq!(sheet.get_raw(&at(0, 1)), None);
    assert_eq!(sheet.get_raw(&at(0, 2)), None);
    assert_eq!(sheet.get_raw(&at(1, 2)), Some("hello"));
    assert_eq!(sheet.get_raw(&at(2, 2)), Some("=A1*10"));
    assert_eq!(sheet.get_raw(&at(0, 3)), Some("last"));
    assert_eq!(sheet.get_raw(&at(0, 4)), None);
    // Nothing is computed until asked for.
    assert!(sheet.get_computed(at(2, 0)).is_none());
    sheet.compute_all();
    assert_eq!(number_at(&sheet, at(2, 0)), 3.0);
    assert_eq!(number_at(&sheet, at(2, 2)), 10.0);
    assert_eq!(sheet.get_text(at(1, 2)), "hello");
}

#[test]
fn unreadable_text_is_recognised() {
    assert!(!SpreadSheet::<F>::text_is_readable("1|=A0"));
    assert!(SpreadSheet::<F>::text_is_readable(""));
    assert!(SpreadSheet::<F>::text_is_readable("=A0 $"));
    assert!(!SpreadSheet::<F>::edit_is_readable("  =B0  "));
    assert!(SpreadSheet::<F>::edit_is_readable("  =B1  "));
}

#[test]
fn committing_edits() {
    let mut sheet = SpreadSheet::<F>::default();
    sheet.commit_edit(at(0, 0), "  7 ");
    assert_eq!(sheet.get_raw(&at(0, 0)), Some("7"));
    sheet.commit_edit(at(1, 0), "=A1*2");
    assert_eq!(number_at(&sheet, at(1, 0)), 14.0);
    sheet.commit_edit(at(0, 0), "8");
    assert_eq!(number_at(&sheet, at(1, 0)), 16.0);
    sheet.commit_edit(at(0, 0), "8");
    assert_eq!(sheet.get_raw(&at(0, 0)), Some("8"));
    sheet.commit_edit(at(0, 0), "   ");
    assert_eq!(sheet.get_raw(&at(0, 0)), None);
    assert!(matches!(sheet.get_computed(at(1, 0)), Some(Err(ComputeError::UnfindableReference(_)))));
    sheet.commit_edit(at(3, 3), "");
    assert_eq!(sheet.get_raw(&at(3, 3)), None);
}

#[test]
fn classifying_edits() {
    assert_eq!(classify_edit("", ""), Edit::Unchanged);
    assert_eq!(classify_edit("a", "a"), Edit::Unchanged);
    assert_eq!(classify_edit("", "a"), Edit::Add);
    assert_eq!(classify_edit("a", ""), Edit::Remove);
    assert_eq!(classify_edit("a", "b"), Edit::Mutate);
}

#[test]
fn a_change_inside_a_range_recomputes_the_range() {
    let mut sheet = SpreadSheet::<F>::default();
    sheet.add_cell_and_compute(at(0, 0), "1".to_string());
    sheet.add_cell_and_compute(at(0, 1), "2".to_string());
    sheet.add_cell_and_compute(at(0, 3), "4".to_string());
    sheet.add_cell_and_compute(at(0, 4), "=sum(A1:A4)".to_string());
    assert_eq!(number_at(&sheet, at(0, 4)), 7.0);
    sheet.mutate_cell(at(0, 1), "20".to_string());
    assert_eq!(number_at(&sheet, at(0, 4)), 25.0);
    sheet.add_cell_and_compute(at(0, 2), "3".to_string());
    assert_eq!(number_at(&sheet, at(0, 4)), 28.0);
    sheet.remove_cell(at(0, 0));
    assert_eq!(number_at(&sheet, at(0, 4)), 27.0);
}

#[test]
fn boolean_and_signed_cells() {
    let mut sheet = SpreadSheet::<F>::default();
    sheet.add_cell_and_compute(at(0, 0), "TRUE".to_string());
    sheet.add_cell_and_compute(at(1, 0), "-2.5".to_string());
    sheet.add_cell_and_compute(at(2, 0), "=if(A1, B1 * 2, 0)".to_string());
    assert_eq!(sheet.get_text(at(0, 0)), "TRUE");
    assert_eq!(number_at(&sheet, at(2, 0)), -5.0);
}
