use website_monitor::books::{books_from_text, books_to_text, Book};
use website_monitor::pricing::{chart_price, latest_close, ChartEntry, Indicators, Quote};
use website_monitor::text::{
    chars_of, is_white_space_char, parse_u16_chars, push_decimal, split_lines, split_words,
    string_of, trim_str,
};

#[test]
fn white_space() {
    for c in [' ', '\t', '\n', '\r', '\u{b}', '\u{c}', '\u{85}', '\u{a0}', '\u{2003}', '\u{3000}'] {
        assert!(is_white_space_char(c));
        assert!(c.is_whitespace());
    }
    for c in (0u32..=0x10FFFF).filter_map(char::from_u32) {
        assert_eq!(is_white_space_char(c), c.is_whitespace(), "{:?}", c);
    }
}

#[test]
fn trimming() {
    assert_eq!(trim_str("  ab c \t\r\n"), "ab c");
    assert_eq!(trim_str("\u{3000}x\u{a0}"), "x");
    assert_eq!(trim_str("   "), "");
    assert_eq!(trim_str(""), "");
}

#[test]
fn lines_like_std() {
    for text in ["", "a", "a\n", "a\nb", "a\r\nb\r\n", "\n", "\n\n", "a\rb\n", "x\r", "\r\n\r\n"] {
        let ours = split_lines(text);
        let std: Vec<&str> = text.lines().collect();
        assert_eq!(ours, std, "lines of {:?}", text);
    }
}

#[test]
fn words_like_std() {
    for text in ["", "  ", "a b", " a  b\tc\n", "x\u{3000}y", "one"] {
        let ours = split_words(text);
        let std: Vec<&str> = text.split_whitespace().collect();
        assert_eq!(ours, std, "words of {:?}", text);
    }
}

#[test]
fn u16_parsing_like_std() {
    for text in ["0", "7", "007", "+12", "65535", "65536", "99999999", "", "+", "-1", "1a", " 1", "+-1"] {
        let ours = parse_u16_chars(&chars_of(text));
        assert_eq!(ours, text.parse::<u16>().ok(), "parse of {:?}", text);
    }
}

#[test]
fn decimal_digits() {
    for n in [0u16, 9, 10, 99, 100, 1949, 65535] {
        let mut out = vec!['<'];
        push_decimal(&mut out, n);
        assert_eq!(string_of(&out), format!("<{}", n));
    }
}

fn book(title: &str, author: &str, year: u16) -> Book {
    Book { title: title.to_string(), author: author.to_string(), year }
}

#[test]
fn books_written_as_lines() {
    let books = vec![book("1984", "George Orwell", 1949), book("To Kill a Mockingbird", "Harper Lee", 1960)];
    assert_eq!(
        books_to_text(&books),
        "1984\nGeorge Orwell\n1949\nTo Kill a Mockingbird\nHarper Lee\n1960\n"
    );
    assert_eq!(books_to_text(&vec![]), "");
}

#[test]
fn books_round_trip() {
    let books = vec![book("1984", "George Orwell", 1949), book("", "Anon", 0), book("Ü", "É", 65535)];
    let back = books_from_text(&books_to_text(&books));
    assert_eq!(back.len(), books.len());
    for (a, b) in back.iter().zip(books.iter()) {
        assert_eq!((&a.title, &a.author, a.year), (&b.title, &b.author, b.year));
    }
}

#[test]
fn books_read_with_trimming_and_bad_years_skipped() {
    let text = "  Dune \r\n Frank Herbert\n 1965 \nBad\nYear\nMCMLXV\nLast\nOne\n+42";
    let books = books_from_text(text);
    assert_eq!(books.len(), 2);
    assert_eq!((books[0].title.as_str(), books[0].author.as_str(), books[0].year), ("Dune", "Frank Herbert", 1965));
    assert_eq!((books[1].title.as_str(), books[1].author.as_str(), books[1].year), ("Last", "One", 42));
}

#[test]
fn latest_present_close() {
    assert_eq!(latest_close(&vec![Some(1.5), None, Some(2.5), None]), Some(2.5));
    assert_eq!(latest_close::<f64>(&vec![None, None]), None);
    assert_eq!(latest_close::<f64>(&vec![]), None);
}

fn entry(regular: Option<f64>, closes: Option<Vec<Option<f64>>>) -> ChartEntry<f64> {
    ChartEntry {
        regular_market_price: regular,
        indicators: Some(Indicators { quote: Some(vec![Quote { close: closes }]) }),
    }
}

#[test]
fn chart_prices() {
    assert_eq!(chart_price(&Some(vec![entry(Some(5000.5), Some(vec![Some(1.0)]))])), Some(5000.5));
    assert_eq!(chart_price(&Some(vec![entry(None, Some(vec![Some(1.0), Some(2.0), None]))])), Some(2.0));
    assert_eq!(chart_price(&Some(vec![entry(None, None)])), None);
    assert_eq!(chart_price::<f64>(&Some(vec![])), None);
    assert_eq!(chart_price::<f64>(&None), None);
    let no_indicators = ChartEntry { regular_market_price: None, indicators: None };
    assert_eq!(chart_price(&Some(vec![no_indicators, entry(Some(1.0), None)])), None);
}
