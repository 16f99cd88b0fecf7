use gk_search::segment::{paragraphize, Span};

fn line(len: usize, fill: char) -> String {
    let mut s: String = std::iter::repeat(fill).take(len - 1).collect();
    s.push('\n');
    s
}

fn ranges(text: &str) -> Vec<(usize, usize)> {
    paragraphize(text).iter().map(|s| (s.start, s.end)).collect()
}

#[test]
fn short_text_is_one_passage() {
    let text = "A single line without a newline";
    let spans = paragraphize(text);
    assert_eq!(spans.len(), 1);
    assert_eq!((spans[0].start, spans[0].end), (0, text.len()));
    assert_eq!(spans[0].highlight, text);
}

#[test]
fn four_units_are_one_passage() {
    let text = "one\ntwo\n\nthree\nfour";
    assert_eq!(ranges(text), vec![(0, text.len())]);
}

#[test]
fn empty_text_is_one_empty_passage() {
    let spans = paragraphize("");
    assert_eq!(spans.len(), 1);
    assert_eq!((spans[0].start, spans[0].end), (0, 0));
    assert_eq!(spans[0].highlight, "");
}

#[test]
fn five_short_units_make_one_window() {
    let text = "a\nb\nc\nd\ne\n";
    assert_eq!(ranges(text), vec![(0, 10)]);
}

#[test]
fn windows_slide_and_overlap() {
    let text: String = (0..6).map(|_| line(300, 'x')).collect();
    assert_eq!(ranges(&text), vec![(0, 1200), (600, 1800)]);
}

#[test]
fn windows_cover_the_text_in_increasing_order() {
    let mut text = String::new();
    for (i, len) in [120, 700, 45, 300, 999, 12, 400, 650, 80, 230, 510].iter().enumerate() {
        text.push_str(&line(*len, (b'a' + i as u8) as char));
        if i % 3 == 0 {
            text.push('\n');
        }
    }
    let spans = paragraphize(&text);
    assert!(spans.len() > 1);
    assert_eq!(spans[0].start, 0);
    assert_eq!(spans.last().unwrap().end, text.len());
    for w in spans.windows(2) {
        assert!(w[0].start < w[1].start);
        assert!(w[0].end < w[1].end);
        assert!(w[1].start <= w[0].end);
    }
    for s in &spans {
        assert!(s.start < s.end);
        assert_eq!(s.highlight, &text[s.start..s.end]);
        assert!(s.start == 0 || text.as_bytes()[s.start - 1] == b'\n');
    }
}

#[test]
fn long_unit_stands_alone() {
    let mut text = line(1500, 'L');
    for _ in 0..4 {
        text.push_str(&line(10, 's'));
    }
    assert_eq!(ranges(&text), vec![(0, 1500), (1500, 1540)]);
}

#[test]
fn window_that_cannot_shrink_starts_afresh() {
    let mut text = line(900, 'a');
    text.push_str(&line(200, 'b'));
    for _ in 0..3 {
        text.push_str(&line(300, 'c'));
    }
    assert_eq!(ranges(&text), vec![(0, 1100), (1100, 2000)]);
}

#[test]
fn newline_runs_belong_to_their_unit() {
    let text = format!("{}\n\n\n{}{}{}{}", line(400, 'a'), line(400, 'b'), line(400, 'c'), line(400, 'd'), line(400, 'e'));
    assert_eq!(ranges(&text), vec![(0, 1203), (403, 1603), (803, 2003)]);
}

#[test]
fn highlights_follow_multibyte_text() {
    let text: String = (0..5).map(|_| "crème brûlée\n").collect();
    let spans = paragraphize(&text);
    assert_eq!(spans.len(), 1);
    assert_eq!(spans[0].highlight, text.as_str());
}

#[test]
fn concat_takes_smallest_start_and_largest_end() {
    let text = "0123456789";
    let parts = vec![
        Span { highlight: "", start: 4, end: 6 },
        Span { highlight: "", start: 2, end: 3 },
        Span { highlight: "", start: 5, end: 8 },
    ];
    let s = Span::concat(text, &parts);
    assert_eq!((s.start, s.end), (2, 8));
    assert_eq!(s.highlight, "234567");
}

#[test]
fn concat_of_nothing_is_empty() {
    let s = Span::concat("abc", &[]);
    assert_eq!((s.start, s.end, s.highlight), (0, 0, ""));
}

#[test]
fn concat_off_a_char_boundary_has_no_highlight() {
    let text = "é";
    let parts = vec![Span { highlight: "", start: 1, end: 2 }];
    let s = Span::concat(text, &parts);
    assert_eq!((s.start, s.end, s.highlight), (1, 2, ""));
}
