//! Reading `colspan` and `rowspan` attributes.

use table_layout::spans::{colspan_of, rowspan_of};

fn spans(text: &str) -> (u16, u16) {
    let attribute = Some(text.to_string());
    (colspan_of(&attribute), rowspan_of(&attribute))
}

#[test]
fn missing_attributes_span_one() {
    assert_eq!(colspan_of(&None), 1);
    assert_eq!(rowspan_of(&None), 1);
}

#[test]
fn numbers_span_that_many() {
    assert_eq!(spans("1"), (1, 1));
    assert_eq!(spans("7"), (7, 7));
    assert_eq!(spans("007"), (7, 7));
    assert_eq!(spans("+3"), (3, 3));
    assert_eq!(spans("65534"), (65534, 65534));
}

#[test]
fn spans_have_limits() {
    assert_eq!(spans("0"), (1, 1));
    assert_eq!(spans("65535"), (65535, 65534));
}

#[test]
fn other_texts_span_one() {
    for text in ["", "+", "-", "-1", " 2", "2 ", "2x", "1e1", "65536", "70000", "++2", "\u{0665}"] {
        assert_eq!(spans(text), (1, 1), "{text:?}");
    }
}
