//! A plain-text book list: three lines per book (title, author, year).
use vstd::prelude::*;
use crate::text::{
    chars_of, decimal, is_digit, is_white_space, lemma_decimal_digits, lemma_parse_decimal,
    line_scan, lines_of, parse_u16, parse_u16_chars, push_decimal, split_lines, string_of,
    strip_cr, trim, trim_end, trim_start, trim_str, lemma_trim_idempotent,
};

verus! {

/// A book of the list.
pub struct Book {
    pub title: String,
    pub author: String,
    pub year: u16,
}

impl View for Book {
    type V = (Seq<char>, Seq<char>, u16);

    open spec fn view(&self) -> (Seq<char>, Seq<char>, u16) {
        (self.title@, self.author@, self.year)
    }
}

/// The views of a sequence of books.
pub open spec fn book_views(books: Seq<Book>) -> Seq<(Seq<char>, Seq<char>, u16)> {
    books.map_values(|b: Book| b@)
}

/// The three lines that stand for one book, each followed by `'\n'`.
pub open spec fn book_entry(b: (Seq<char>, Seq<char>, u16)) -> Seq<char> {
    b.0 + seq!['\n'] + b.1 + seq!['\n'] + decimal(b.2 as nat) + seq!['\n']
}

/// The text of a book list: the entries of its books, one after the other.
pub open spec fn books_text(bs: Seq<(Seq<char>, Seq<char>, u16)>) -> Seq<char>
    decreases bs.len(),
{
    if bs.len() == 0 {
        Seq::empty()
    } else {
        books_text(bs.drop_last()) + book_entry(bs.last())
    }
}

/// Writes the book list as text: title, author and year of each book on
/// lines of their own.
pub fn books_to_text(books: &Vec<Book>) -> (text: String)
    ensures
        text@ == books_text(book_views(books@)),
{
    let ghost bs = book_views(books@);
    let n = books.len();
    let mut out: Vec<char> = Vec::new();
    for i in 0..n
        invariant
            n == books.len() == bs.len(),
            bs == book_views(books@),
            out@ == books_text(bs.take(i as int)),
    {
        let b = &books[i];
        let title = chars_of(b.title.as_str());
        let author = chars_of(b.author.as_str());
        let ghost before = out@;
        for j in 0..title.len()
            invariant
                out@ == before + title@.take(j as int),
        {
            out.push(title[j]);
            assert(title@.take(j + 1) == title@.take(j as int).push(title@[j as int]));
        }
        assert(title@.take(title@.len() as int) == title@);
        out.push('\n');
        let ghost mid = out@;
        for j in 0..author.len()
            invariant
                out@ == mid + author@.take(j as int),
        {
            out.push(author[j]);
            assert(author@.take(j + 1) == author@.take(j as int).push(author@[j as int]));
        }
        assert(author@.take(author@.len() as int) == author@);
        out.push('\n');
        push_decimal(&mut out, b.year);
        out.push('\n');
        assert(bs.take(i + 1).drop_last() == bs.take(i as int));
        assert(bs[i as int] == b@);
        assert(out@ == books_text(bs.take(i + 1)));
    }
    assert(bs.take(n as int) == bs);
    string_of(out.as_slice())
}


/// The books read from `lines`, three lines per book: the trimmed title,
/// the trimmed author and the trimmed year; a book whose year does not parse
/// as a `u16` is left out.
pub open spec fn parse_book_lines(lines: Seq<Seq<char>>) -> Seq<(Seq<char>, Seq<char>, u16)>
    decreases lines.len(),
{
    if lines.len() < 3 {
        Seq::empty()
    } else {
        let k = lines.len() - 3;
        let head = parse_book_lines(lines.take(k));
        match parse_u16(trim(lines[k + 2])) {
            Some(y) => head.push((trim(lines[k]), trim(lines[k + 1]), y)),
            None => head,
        }
    }
}

/// Reads a book list from its text. A text whose number of lines is not a
/// multiple of three is left out: a book would lack its author or its year.
pub fn books_from_text(text: &str) -> (books: Vec<Book>)
    requires
        lines_of(text@).len() % 3 == 0,
    ensures
        book_views(books@) == parse_book_lines(lines_of(text@)),
{
    let lines = split_lines(text);
    let ghost ls = lines.deep_view();
    let groups = lines.len() / 3;
    let mut books: Vec<Book> = Vec::new();
    for g in 0..groups
        invariant
            groups * 3 == lines.len() == ls.len(),
            ls == lines.deep_view(),
            book_views(books@) == parse_book_lines(ls.take(3 * g)),
    {
        let k = 3 * g;
        let title = trim_str(lines[k].as_str());
        let author = trim_str(lines[k + 1].as_str());
        let year_text = trim_str(lines[k + 2].as_str());
        let year_chars = chars_of(year_text.as_str());
        let parsed = parse_u16_chars(year_chars.as_slice());
        let ghost prefix = ls.take(3 * g + 3);
        assert(prefix.take(3 * g) == ls.take(3 * g));
        assert(prefix[k as int] == lines@[k as int]@);
        assert(prefix[k + 1] == lines@[k + 1]@);
        assert(prefix[k + 2] == lines@[k + 2]@);
        match parsed {
            Some(year) => {
                let ghost before = books@;
                books.push(Book { title, author, year });
                assert(book_views(books@) == book_views(before).push(books@.last()@));
            },
            None => {},
        }
        assert(3 * (g + 1) == 3 * g + 3);
    }
    assert(ls.take(3 * groups) == ls);
    books
}


/// A title or author that survives being written on a line and read back:
/// it holds no `'\n'` and has no white space at either end.
pub open spec fn is_line_safe(s: Seq<char>) -> bool {
    &&& forall|i: int| 0 <= i < s.len() ==> #[trigger] s[i] != '\n'
    &&& trim(s) == s
}

/// Every title and author of `bs` is line safe.
pub open spec fn all_line_safe(bs: Seq<(Seq<char>, Seq<char>, u16)>) -> bool {
    forall|i: int| 0 <= i < bs.len() ==> is_line_safe(#[trigger] bs[i].0) && is_line_safe(bs[i].1)
}

/// The lines of the text of a book list: title, author and year of each book.
pub open spec fn book_lines(bs: Seq<(Seq<char>, Seq<char>, u16)>) -> Seq<Seq<char>>
    decreases bs.len(),
{
    if bs.len() == 0 {
        Seq::empty()
    } else {
        book_lines(bs.drop_last()).push(bs.last().0).push(bs.last().1).push(
            decimal(bs.last().2 as nat),
        )
    }
}

proof fn lemma_line_scan_append(s: Seq<char>, l: Seq<char>)
    requires
        forall|i: int| 0 <= i < l.len() ==> #[trigger] l[i] != '\n',
    ensures
        line_scan(s + l) == (line_scan(s).0, line_scan(s).1 + l),
    decreases l.len(),
{
    if l.len() == 0 {
        assert(s + l == s);
        assert(line_scan(s).1 + l == line_scan(s).1);
    } else {
        let l2 = l.drop_last();
        lemma_line_scan_append(s, l2);
        assert((s + l).drop_last() == s + l2);
        assert((s + l).last() == l[l.len() - 1]);
        assert(line_scan(s).1 + l2.push(l.last()) == (line_scan(s).1 + l2).push(l.last()));
        assert(l2.push(l.last()) == l);
    }
}

proof fn lemma_line_scan_line(s: Seq<char>, l: Seq<char>)
    requires
        forall|i: int| 0 <= i < l.len() ==> #[trigger] l[i] != '\n',
        line_scan(s).1.len() == 0,
    ensures
        line_scan(s + l + seq!['\n']) == (line_scan(s).0.push(strip_cr(l)), Seq::<char>::empty()),
{
    lemma_line_scan_append(s, l);
    assert((s + l + seq!['\n']).drop_last() == s + l);
    assert(line_scan(s).1 + l == l);
}

proof fn lemma_trim_lengths(y: Seq<char>)
    ensures
        trim_start(y).len() <= y.len(),
        trim_start(y) == y.skip(y.len() - trim_start(y).len()),
        y.len() > 0 && is_white_space(y[0]) ==> trim_start(y).len() < y.len(),
        trim_end(y).len() <= y.len(),
        trim_end(y) == y.take(trim_end(y).len() as int),
        y.len() > 0 && is_white_space(y.last()) ==> trim_end(y).len() < y.len(),
    decreases y.len(),
{
    if y.len() > 0 {
        lemma_trim_lengths(y.drop_first());
        lemma_trim_lengths(y.drop_last());
        if is_white_space(y[0]) {
            assert(y.drop_first().skip(y.drop_first().len() - trim_start(y).len()) == y.skip(
                y.len() - trim_start(y).len(),
            ));
        } else {
            assert(y.skip(0) == y);
        }
        if is_white_space(y.last()) {
            assert(y.drop_last().take(trim_end(y).len() as int) == y.take(
                trim_end(y).len() as int,
            ));
        } else {
            assert(y.take(y.len() as int) == y);
        }
    } else {
        assert(y.skip(0) == y);
        assert(y.take(0) == y);
    }
}

proof fn lemma_trimmed_ends(t: Seq<char>)
    requires
        trim(t) == t,
        t.len() > 0,
    ensures
        !is_white_space(t.last()),
{
    lemma_trim_lengths(t);
    lemma_trim_lengths(trim_start(t));
    assert(trim_start(t).len() == t.len());
    assert(trim_start(t) == t);
}

proof fn lemma_decimal_trimmed(n: nat)
    ensures
        trim(decimal(n)) == decimal(n),
        forall|i: int| 0 <= i < decimal(n).len() ==> #[trigger] decimal(n)[i] != '\n',
        strip_cr(decimal(n)) == decimal(n),
{
    lemma_decimal_digits(n);
    let d = decimal(n);
    assert(is_digit(d[0]));
    assert(is_digit(d[d.len() - 1]));
    assert forall|i: int| 0 <= i < d.len() implies #[trigger] d[i] != '\n' by {
        assert(is_digit(d[i]));
    }
}

proof fn lemma_book_text_lines(bs: Seq<(Seq<char>, Seq<char>, u16)>)
    requires
        all_line_safe(bs),
    ensures
        line_scan(books_text(bs)) == (book_lines(bs), Seq::<char>::empty()),
    decreases bs.len(),
{
    if bs.len() > 0 {
        let rest = bs.drop_last();
        assert forall|i: int|
            0 <= i < rest.len() implies is_line_safe(#[trigger] rest[i].0) && is_line_safe(
            rest[i].1,
        ) by {
            assert(rest[i] == bs[i]);
        }
        assert(all_line_safe(rest));
        lemma_book_text_lines(rest);
        let b = bs.last();
        assert(is_line_safe(bs[bs.len() - 1].0));
        let x = books_text(rest);
        let x1 = x + b.0 + seq!['\n'];
        let x2 = x1 + b.1 + seq!['\n'];
        let x3 = x2 + decimal(b.2 as nat) + seq!['\n'];
        assert(books_text(bs) == x3);
        lemma_line_scan_line(x, b.0);
        lemma_line_scan_line(x1, b.1);
        lemma_decimal_trimmed(b.2 as nat);
        lemma_line_scan_line(x2, decimal(b.2 as nat));
        if b.0.len() > 0 {
            lemma_trimmed_ends(b.0);
        }
        if b.1.len() > 0 {
            lemma_trimmed_ends(b.1);
        }
        assert(strip_cr(b.0) == b.0);
        assert(strip_cr(b.1) == b.1);
    }
}

proof fn lemma_parse_book_lines(bs: Seq<(Seq<char>, Seq<char>, u16)>)
    requires
        all_line_safe(bs),
    ensures
        book_lines(bs).len() == 3 * bs.len(),
        parse_book_lines(book_lines(bs)) == bs,
    decreases bs.len(),
{
    if bs.len() > 0 {
        let rest = bs.drop_last();
        assert forall|i: int|
            0 <= i < rest.len() implies is_line_safe(#[trigger] rest[i].0) && is_line_safe(
            rest[i].1,
        ) by {
            assert(rest[i] == bs[i]);
        }
        assert(all_line_safe(rest));
        lemma_parse_book_lines(rest);
        let b = bs.last();
        assert(is_line_safe(bs[bs.len() - 1].0));
        let ls = book_lines(bs);
        let k = ls.len() - 3;
        assert(ls.take(k) == book_lines(rest));
        lemma_decimal_trimmed(b.2 as nat);
        lemma_parse_decimal(b.2);
        assert(ls[k + 2] == decimal(b.2 as nat));
        assert(bs == rest.push(b));
    }
}

/// Writing a book list as text and reading it back gives the same books,
/// provided no title or author holds a line break or surrounding white space.
pub proof fn lemma_books_round_trip(bs: Seq<(Seq<char>, Seq<char>, u16)>)
    requires
        all_line_safe(bs),
    ensures
        lines_of(books_text(bs)).len() % 3 == 0,
        parse_book_lines(lines_of(books_text(bs))) == bs,
{
    lemma_book_text_lines(bs);
    lemma_parse_book_lines(bs);
}

/// Every title and author read is trimmed, whatever the line looked like:
/// white space at either end of a line is never part of what is read, and
/// each title, author and year comes from a group of three lines in order.
pub proof fn lemma_read_books_are_trimmed(lines: Seq<Seq<char>>)
    ensures
        parse_book_lines(lines).len() <= lines.len() / 3,
        forall|i: int|
            0 <= i < parse_book_lines(lines).len() ==> trim(#[trigger] parse_book_lines(lines)[i].0)
                == parse_book_lines(lines)[i].0 && trim(parse_book_lines(lines)[i].1)
                == parse_book_lines(lines)[i].1,
    decreases lines.len(),
{
    if lines.len() >= 3 {
        let k = lines.len() - 3;
        let head = parse_book_lines(lines.take(k));
        lemma_read_books_are_trimmed(lines.take(k));
        lemma_trim_idempotent(lines[k]);
        lemma_trim_idempotent(lines[k + 1]);
        let r = parse_book_lines(lines);
        assert forall|i: int| 0 <= i < r.len() implies trim(#[trigger] r[i].0) == r[i].0 && trim(
            r[i].1,
        ) == r[i].1 by {
            if i < head.len() {
                assert(r[i] == head[i]);
            }
        }
    }
}

/// A book is read from every group of three lines whose third line, trimmed,
/// is a year: its title and author are the first two lines trimmed.
pub proof fn lemma_book_read_from_group(lines: Seq<Seq<char>>, title: Seq<char>, author: Seq<char>, year: u16)
    ensures
        parse_u16(trim(decimal(year as nat))) == Some(year),
        parse_book_lines(lines + seq![title, author, decimal(year as nat)]) == parse_book_lines(
            lines,
        ).push((trim(title), trim(author), year)),
{
    lemma_decimal_trimmed(year as nat);
    lemma_parse_decimal(year);
    let all = lines + seq![title, author, decimal(year as nat)];
    assert(all.take(all.len() - 3) == lines);
    assert(all[all.len() - 3] == title);
    assert(all[all.len() - 2] == author);
    assert(all[all.len() - 1] == decimal(year as nat));
}

} // verus!
