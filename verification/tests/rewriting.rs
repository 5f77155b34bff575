use mdbook_directives::errors::PluginError;
use mdbook_directives::rewrite::apply_replacements;
use mdbook_directives::token::Span;

fn sp(start: usize, end: usize) -> Span {
    Span { start, end }
}

#[test]
fn offset_correction_shifts_later_spans() {
    // Forty bytes; spans [10,20) and [30,40) in the original text. The first
    // replacement shrinks [10,20) to five bytes, so the second lands on
    // [25,35) of the mutated buffer.
    let text: Vec<u8> = (0u8..40u8).collect();
    let reps = vec![
        (sp(10, 20), b"abcde".to_vec()),
        (sp(30, 40), b"XYZ".to_vec()),
    ];
    let out = apply_replacements(text.clone(), &reps).unwrap();

    let mut expected: Vec<u8> = Vec::new();
    expected.extend_from_slice(&text[0..10]);
    expected.extend_from_slice(b"abcde");
    expected.extend_from_slice(&text[20..30]);
    expected.extend_from_slice(b"XYZ");
    assert_eq!(expected, out);
}

#[test]
fn text_outside_spans_is_preserved() {
    let text = b"aaaa<OLD>bbbb<TWO>cccc".to_vec();
    let reps = vec![
        (sp(4, 9), b"1".to_vec()),
        (sp(13, 18), b"22222222".to_vec()),
    ];
    let out = apply_replacements(text, &reps).unwrap();
    assert_eq!(b"aaaa1bbbb22222222cccc".to_vec(), out);
}

#[test]
fn empty_replacement_list_keeps_text() {
    let text = b"unchanged".to_vec();
    let out = apply_replacements(text.clone(), &vec![]).unwrap();
    assert_eq!(text, out);
}

#[test]
fn negative_range_is_offset_underflow() {
    // The first replacement shrinks the front of the buffer; the second span
    // then shifts below zero.
    let text = b"0123456789".to_vec();
    let reps = vec![
        (sp(0, 8), b"x".to_vec()),
        (sp(2, 9), b"y".to_vec()),
    ];
    let e = apply_replacements(text, &reps).unwrap_err();
    assert_eq!(PluginError::OffsetUnderflow, e);
    assert_eq!("Negative replacement range.", e.message());
}

#[test]
fn out_of_bounds_span_is_rejected() {
    let text = b"short".to_vec();
    let reps = vec![(sp(2, 99), b"x".to_vec())];
    let e = apply_replacements(text, &reps).unwrap_err();
    assert_eq!(PluginError::SpanOutOfBounds, e);

    let text = b"short".to_vec();
    let reps = vec![(sp(4, 2), b"x".to_vec())];
    let e = apply_replacements(text, &reps).unwrap_err();
    assert_eq!(PluginError::SpanOutOfBounds, e);
}

#[test]
fn growing_replacement_shifts_later_spans_forward() {
    let text = b"--A--B--".to_vec();
    let reps = vec![
        (sp(2, 3), b"LONGER".to_vec()),
        (sp(5, 6), b"END".to_vec()),
    ];
    let out = apply_replacements(text, &reps).unwrap();
    assert_eq!(b"--LONGER--END--".to_vec(), out);
}
