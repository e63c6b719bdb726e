use ontolex::span::{usize_to_string, Located, Source, Span};

fn source(content: &str) -> Source {
    Source {
        filename: "file.txt".to_string(),
        content: content.to_string(),
    }
}

#[test]
fn whole_covers_all_content() {
    let src = source("abcdef");
    let span = Span::whole(&src);
    assert_eq!(span.start, 0);
    assert_eq!(span.end, 6);
    assert_eq!(span.fragment(&src), "abcdef");
}

#[test]
fn take_shift_split_and_merge() {
    let span = Span { start: 2, end: 10 };
    let taken = span.take(3);
    assert_eq!((taken.start, taken.end), (2, 5));
    let shifted = span.shift(3);
    assert_eq!((shifted.start, shifted.end), (5, 10));
    let (remaining, prefix) = span.split(4);
    assert_eq!((prefix.start, prefix.end), (2, 6));
    assert_eq!((remaining.start, remaining.end), (6, 10));
    let merged = prefix.merge(&remaining);
    assert_eq!((merged.start, merged.end), (2, 10));
}

#[test]
fn fragment_is_exact_substring() {
    let src = source("alpha beta gamma");
    let span = Span { start: 6, end: 10 };
    assert_eq!(span.fragment(&src), "beta");
}

#[test]
fn line_and_column_are_one_indexed() {
    let src = source("ab\ncd\nef");
    let at = |start: usize| {
        let span = Span { start, end: start };
        (span.line(&src), span.column(&src))
    };
    assert_eq!(at(0), (1, 1));
    assert_eq!(at(1), (1, 2));
    assert_eq!(at(3), (2, 1));
    assert_eq!(at(4), (2, 2));
    assert_eq!(at(6), (3, 1));
}

#[test]
fn location_formats_file_line_column() {
    let src = source("ab\ncd");
    let span = Span { start: 4, end: 5 };
    assert_eq!(span.location(&src), "file.txt:2:2");
}

#[test]
fn renders_decimal_numbers() {
    assert_eq!(usize_to_string(0), "0");
    assert_eq!(usize_to_string(7), "7");
    assert_eq!(usize_to_string(10), "10");
    assert_eq!(usize_to_string(90210), "90210");
}

#[test]
fn located_keeps_value_and_span() {
    let l = Located::new(17u32, Span { start: 1, end: 4 });
    assert_eq!(l.value, 17);
    assert_eq!((l.span.start, l.span.end), (1, 4));
    let m = l.map(|v| v + 1);
    assert_eq!(m.value, 18);
    assert_eq!((m.span.start, m.span.end), (1, 4));
}
