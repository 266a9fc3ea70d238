//! Character-level text handling: white space, trimming, line and word
//! splitting, and decimal numbers, each stated over `Seq<char>`.
use vstd::prelude::*;

verus! {

/// The characters with the Unicode `White_Space` property, which is what
/// `char::is_whitespace` tests.
pub open spec fn is_white_space(c: char) -> bool {
    ||| '\u{9}' <= c <= '\u{d}'
    ||| c == ' '
    ||| c == '\u{85}'
    ||| c == '\u{a0}'
    ||| c == '\u{1680}'
    ||| '\u{2000}' <= c <= '\u{200a}'
    ||| c == '\u{2028}'
    ||| c == '\u{2029}'
    ||| c == '\u{202f}'
    ||| c == '\u{205f}'
    ||| c == '\u{3000}'
}

/// Tests one character for white space.
pub fn is_white_space_char(c: char) -> (b: bool)
    ensures
        b == is_white_space(c),
{
    ('\u{9}' <= c && c <= '\u{d}') || c == ' ' || c == '\u{85}' || c == '\u{a0}' || c
        == '\u{1680}' || ('\u{2000}' <= c && c <= '\u{200a}') || c == '\u{2028}' || c
        == '\u{2029}' || c == '\u{202f}' || c == '\u{205f}' || c == '\u{3000}'
}

/// `s` without its leading white space.
pub open spec fn trim_start(s: Seq<char>) -> Seq<char>
    decreases s.len(),
{
    if s.len() > 0 && is_white_space(s[0]) {
        trim_start(s.drop_first())
    } else {
        s
    }
}

/// `s` without its trailing white space.
pub open spec fn trim_end(s: Seq<char>) -> Seq<char>
    decreases s.len(),
{
    if s.len() > 0 && is_white_space(s.last()) {
        trim_end(s.drop_last())
    } else {
        s
    }
}

/// `s` without leading and trailing white space, as `str::trim` gives it.
pub open spec fn trim(s: Seq<char>) -> Seq<char> {
    trim_end(trim_start(s))
}

/// The characters of a string slice.
pub fn chars_of(s: &str) -> (cs: Vec<char>)
    ensures
        cs@ == s@,
{
    let mut cs: Vec<char> = Vec::new();
    for c in it: s.chars()
        invariant
            cs@ == it.seq().take(it.index() as int),
            it.seq() == s@,
    {
        cs.push(c);
    }
    cs
}


/// `String::push` appends one character.
#[verifier::external_body]
pub(crate) fn push_char(s: &mut String, c: char)
    ensures
        final(s)@ == old(s)@.push(c),
{
    s.push(c);
}

/// The string made of the characters `cs`.
pub fn string_of(cs: &[char]) -> (s: String)
    ensures
        s@ == cs@,
{
    let mut s = String::new();
    let n = cs.len();
    for i in 0..n
        invariant
            n == cs@.len(),
            s@ == cs@.take(i as int),
    {
        push_char(&mut s, cs[i]);
        assert(cs@.take(i + 1) == cs@.take(i as int).push(cs@[i as int]));
    }
    assert(cs@.take(n as int) == cs@);
    s
}

/// The positions `(start, end)` of `cs` between which its trimmed part lies.
pub fn trim_bounds(cs: &[char]) -> (r: (usize, usize))
    ensures
        r.0 <= r.1 <= cs@.len(),
        trim(cs@) == cs@.subrange(r.0 as int, r.1 as int),
{
    let n = cs.len();
    let mut start: usize = 0;
    assert(cs@.skip(0) == cs@);
    while start < n && is_white_space_char(cs[start])
        invariant
            start <= n == cs@.len(),
            trim_start(cs@) == trim_start(cs@.skip(start as int)),
        decreases n - start,
    {
        assert(cs@.skip(start as int).drop_first() == cs@.skip(start + 1));
        start = start + 1;
    }
    let ghost rest = cs@.skip(start as int);
    assert(trim_start(rest) == rest);
    let mut end: usize = n;
    while end > start && is_white_space_char(cs[end - 1])
        invariant
            start <= end <= n == cs@.len(),
            rest == cs@.subrange(start as int, n as int),
            trim_end(rest) == trim_end(cs@.subrange(start as int, end as int)),
        decreases end,
    {
        assert(cs@.subrange(start as int, end as int).drop_last() == cs@.subrange(
            start as int,
            end - 1,
        ));
        end = end - 1;
    }
    (start, end)
}

/// The digit character of a number below ten.
pub open spec fn digit_char(d: nat) -> char {
    (48 + d) as char
}

/// The decimal notation of `n`, without leading zeros.
pub open spec fn decimal(n: nat) -> Seq<char>
    decreases n,
{
    if n < 10 {
        seq![digit_char(n)]
    } else {
        decimal(n / 10).push(digit_char(n % 10))
    }
}

/// Appends the decimal notation of `n` to `out`.
pub fn push_decimal(out: &mut Vec<char>, n: u16)
    ensures
        final(out)@ == old(out)@ + decimal(n as nat),
    decreases n,
{
    if n >= 10 {
        push_decimal(out, n / 10);
    }
    let d: u8 = (n % 10) as u8;
    out.push((48u8 + d) as char);
}


/// An ASCII decimal digit.
pub open spec fn is_digit(c: char) -> bool {
    '0' <= c <= '9'
}

/// Every character of `s` is an ASCII decimal digit.
pub open spec fn all_digits(s: Seq<char>) -> bool {
    forall|i: int| 0 <= i < s.len() ==> is_digit(#[trigger] s[i])
}

/// The number that the digits `s` denote.
pub open spec fn digits_value(s: Seq<char>) -> nat
    decreases s.len(),
{
    if s.len() == 0 {
        0
    } else {
        digits_value(s.drop_last()) * 10 + (s.last() as int - 48) as nat
    }
}

/// `s` without one leading `+`, if it has one.
pub open spec fn unsigned_digits(s: Seq<char>) -> Seq<char> {
    if s.len() > 0 && s[0] == '+' {
        s.drop_first()
    } else {
        s
    }
}

/// What `str::parse::<u16>` gives: an optional `+`, then at least one ASCII
/// digit and nothing else, denoting a number that fits in a `u16`.
pub open spec fn parse_u16(s: Seq<char>) -> Option<u16> {
    let d = unsigned_digits(s);
    if d.len() > 0 && all_digits(d) && digits_value(d) <= u16::MAX {
        Some(digits_value(d) as u16)
    } else {
        None
    }
}

/// Parses the characters `cs` as a `u16`, as `str::parse::<u16>` does.
pub fn parse_u16_chars(cs: &[char]) -> (r: Option<u16>)
    ensures
        r == parse_u16(cs@),
{
    let n = cs.len();
    let mut i: usize = 0;
    if n > 0 && cs[0] == '+' {
        i = 1;
    }
    let first = i;
    let ghost d = unsigned_digits(cs@);
    assert(d == cs@.skip(first as int));
    if first == n {
        return None;
    }
    let mut value: u32 = 0;
    let mut too_big = false;
    while i < n
        invariant
            first <= i <= n == cs@.len(),
            first < n,
            d == cs@.skip(first as int),
            d == unsigned_digits(cs@),
            all_digits(cs@.subrange(first as int, i as int)),
            !too_big ==> value == digits_value(cs@.subrange(first as int, i as int)),
            !too_big ==> value <= u16::MAX,
            too_big ==> digits_value(cs@.subrange(first as int, i as int)) > u16::MAX,
        decreases n - i,
    {
        let c = cs[i];
        if !('0' <= c && c <= '9') {
            assert(d[i - first] == c);
            assert(!is_digit(d[i - first]));
            assert(!all_digits(d));
            assert(unsigned_digits(cs@) == d);
            return None;
        }
        let ghost prev = cs@.subrange(first as int, i as int);
        assert(cs@.subrange(first as int, i + 1).drop_last() == prev);
        assert(cs@.subrange(first as int, i + 1).last() == c);
        let digit = (c as u32) - 48;
        if !too_big {
            value = value * 10 + digit;
            if value > 65535 {
                too_big = true;
            }
        }
        i = i + 1;
    }
    assert(cs@.subrange(first as int, n as int) == d);
    if too_big {
        None
    } else {
        Some(value as u16)
    }
}

/// Decimal notation consists of digits and denotes the number it was made from.
pub proof fn lemma_decimal_digits(n: nat)
    ensures
        decimal(n).len() > 0,
        all_digits(decimal(n)),
        digits_value(decimal(n)) == n,
        decimal(n)[0] != '+',
    decreases n,
{
    assert(digit_char(n % 10) as int == 48 + n % 10);
    if n >= 10 {
        lemma_decimal_digits(n / 10);
        let s = decimal(n);
        assert(s.drop_last() == decimal(n / 10));
        assert(s.last() == digit_char(n % 10));
        assert(digits_value(s) == digits_value(decimal(n / 10)) * 10 + n % 10);
        assert((n / 10) * 10 + n % 10 == n);
        assert forall|i: int| 0 <= i < s.len() implies is_digit(#[trigger] s[i]) by {
            if i < s.len() - 1 {
                assert(s[i] == decimal(n / 10)[i]);
            }
        }
    } else {
        assert(decimal(n).drop_last() =~= Seq::<char>::empty());
        assert(digits_value(Seq::<char>::empty()) == 0);
    }
}

/// Parsing the decimal notation of a `u16` gives the number back.
pub proof fn lemma_parse_decimal(n: u16)
    ensures
        parse_u16(decimal(n as nat)) == Some(n),
{
    lemma_decimal_digits(n as nat);
}


/// `line` without one trailing carriage return, if it has one.
pub open spec fn strip_cr(line: Seq<char>) -> Seq<char> {
    if line.len() > 0 && line.last() == '\r' {
        line.drop_last()
    } else {
        line
    }
}

/// Reading `s` from the left: the lines closed by a `'\n'` so far, each
/// without its `"\n"` or `"\r\n"`, and the characters read since the last `'\n'`.
pub open spec fn line_scan(s: Seq<char>) -> (Seq<Seq<char>>, Seq<char>)
    decreases s.len(),
{
    if s.len() == 0 {
        (Seq::empty(), Seq::empty())
    } else {
        let prev = line_scan(s.drop_last());
        if s.last() == '\n' {
            (prev.0.push(strip_cr(prev.1)), Seq::empty())
        } else {
            (prev.0, prev.1.push(s.last()))
        }
    }
}

/// The lines of `s`, as `str::lines` gives them: split at `"\n"` and
/// `"\r\n"`, the final line ending being optional.
pub open spec fn lines_of(s: Seq<char>) -> Seq<Seq<char>> {
    let scan = line_scan(s);
    if scan.1.len() == 0 {
        scan.0
    } else {
        scan.0.push(scan.1)
    }
}

/// Splits `text` into its lines, as `str::lines` does.
pub fn split_lines(text: &str) -> (lines: Vec<String>)
    ensures
        lines.deep_view() == lines_of(text@),
{
    let cs = chars_of(text);
    let n = cs.len();
    let mut done: Vec<String> = Vec::new();
    let mut cur: Vec<char> = Vec::new();
    for i in 0..n
        invariant
            n == cs@.len(),
            done.deep_view() == line_scan(cs@.take(i as int)).0,
            cur@ == line_scan(cs@.take(i as int)).1,
    {
        let c = cs[i];
        assert(cs@.take(i + 1).drop_last() == cs@.take(i as int));
        if c == '\n' {
            let len = cur.len();
            if len > 0 && cur[len - 1] == '\r' {
                cur.pop();
            }
            let line = string_of(cur.as_slice());
            done.push(line);
            cur = Vec::new();
        } else {
            cur.push(c);
        }
    }
    assert(cs@.take(n as int) == cs@);
    if cur.len() > 0 {
        done.push(string_of(cur.as_slice()));
    }
    done
}

/// Reading `s` from the left: the words finished so far and the word being
/// read, a word being a maximal run of characters that are not white space.
pub open spec fn word_scan(s: Seq<char>) -> (Seq<Seq<char>>, Seq<char>)
    decreases s.len(),
{
    if s.len() == 0 {
        (Seq::empty(), Seq::empty())
    } else {
        let prev = word_scan(s.drop_last());
        if !is_white_space(s.last()) {
            (prev.0, prev.1.push(s.last()))
        } else if prev.1.len() > 0 {
            (prev.0.push(prev.1), Seq::empty())
        } else {
            prev
        }
    }
}

/// The words of `s`, as `str::split_whitespace` gives them.
pub open spec fn words_of(s: Seq<char>) -> Seq<Seq<char>> {
    let scan = word_scan(s);
    if scan.1.len() == 0 {
        scan.0
    } else {
        scan.0.push(scan.1)
    }
}

/// Splits `text` at white space into its words, as `str::split_whitespace` does.
pub fn split_words(text: &str) -> (words: Vec<String>)
    ensures
        words.deep_view() == words_of(text@),
{
    let cs = chars_of(text);
    let n = cs.len();
    let mut done: Vec<String> = Vec::new();
    let mut cur: Vec<char> = Vec::new();
    for i in 0..n
        invariant
            n == cs@.len(),
            done.deep_view() == word_scan(cs@.take(i as int)).0,
            cur@ == word_scan(cs@.take(i as int)).1,
    {
        let c = cs[i];
        assert(cs@.take(i + 1).drop_last() == cs@.take(i as int));
        if !is_white_space_char(c) {
            cur.push(c);
        } else if cur.len() > 0 {
            done.push(string_of(cur.as_slice()));
            cur = Vec::new();
        }
    }
    assert(cs@.take(n as int) == cs@);
    if cur.len() > 0 {
        done.push(string_of(cur.as_slice()));
    }
    done
}


/// `text` with leading and trailing white space removed, as `str::trim` gives it.
pub fn trim_str(text: &str) -> (r: String)
    ensures
        r@ == trim(text@),
{
    let cs = chars_of(text);
    let (start, end) = trim_bounds(cs.as_slice());
    let mut part: Vec<char> = Vec::new();
    for i in start..end
        invariant
            start <= end <= cs@.len(),
            part@ == cs@.subrange(start as int, i as int),
    {
        part.push(cs[i]);
        assert(cs@.subrange(start as int, i + 1) == cs@.subrange(start as int, i as int).push(
            cs@[i as int],
        ));
    }
    string_of(part.as_slice())
}


/// Every word is non-empty and holds no white space.
pub proof fn lemma_words_wellformed(s: Seq<char>)
    ensures
        forall|i: int|
            0 <= i < words_of(s).len() ==> (#[trigger] words_of(s)[i]).len() > 0 && forall|j: int|
                0 <= j < words_of(s)[i].len() ==> !is_white_space(#[trigger] words_of(s)[i][j]),
{
    lemma_word_scan_wellformed(s);
}

proof fn lemma_word_scan_wellformed(s: Seq<char>)
    ensures
        forall|i: int|
            0 <= i < word_scan(s).0.len() ==> (#[trigger] word_scan(s).0[i]).len() > 0
                && forall|j: int|
                0 <= j < word_scan(s).0[i].len() ==> !is_white_space(
                    #[trigger] word_scan(s).0[i][j],
                ),
        forall|j: int|
            0 <= j < word_scan(s).1.len() ==> !is_white_space(#[trigger] word_scan(s).1[j]),
    decreases s.len(),
{
    if s.len() > 0 {
        let p = word_scan(s.drop_last());
        let c = s.last();
        lemma_word_scan_wellformed(s.drop_last());
        let r = word_scan(s);
        assert forall|i: int| 0 <= i < r.0.len() implies (#[trigger] r.0[i]).len() > 0
            && forall|j: int| 0 <= j < r.0[i].len() ==> !is_white_space(#[trigger] r.0[i][j]) by {
            if i < p.0.len() {
                assert(r.0[i] == p.0[i]);
            } else {
                assert(r.0[i] == p.1);
            }
        }
        assert forall|j: int| 0 <= j < r.1.len() implies !is_white_space(#[trigger] r.1[j]) by {
            if !is_white_space(c) && j < p.1.len() {
                assert(r.1[j] == p.1[j]);
            }
        }
    }
}

/// No line holds a `'\n'`.
pub proof fn lemma_lines_have_no_newline(s: Seq<char>)
    ensures
        forall|i: int, j: int|
            0 <= i < lines_of(s).len() && 0 <= j < lines_of(s)[i].len() ==> #[trigger] lines_of(
                s,
            )[i][j] != '\n',
{
    lemma_line_scan_no_newline(s);
}

proof fn lemma_line_scan_no_newline(s: Seq<char>)
    ensures
        forall|i: int, j: int|
            0 <= i < line_scan(s).0.len() && 0 <= j < line_scan(s).0[i].len()
                ==> #[trigger] line_scan(s).0[i][j] != '\n',
        forall|j: int| 0 <= j < line_scan(s).1.len() ==> #[trigger] line_scan(s).1[j] != '\n',
    decreases s.len(),
{
    if s.len() > 0 {
        let p = line_scan(s.drop_last());
        let c = s.last();
        lemma_line_scan_no_newline(s.drop_last());
        let r = line_scan(s);
        assert forall|i: int, j: int| 0 <= i < r.0.len() && 0 <= j < r.0[i].len() implies #[trigger] r.0[i][j]
            != '\n' by {
            if i < p.0.len() {
                assert(r.0[i] == p.0[i]);
            } else {
                assert(r.0[i] == strip_cr(p.1));
                assert(strip_cr(p.1)[j] == p.1[j]);
            }
        }
        assert forall|j: int| 0 <= j < r.1.len() implies #[trigger] r.1[j] != '\n' by {
            if c != '\n' && j < p.1.len() {
                assert(r.1[j] == p.1[j]);
            }
        }
    }
}

proof fn lemma_word_scan_solid(s: Seq<char>)
    requires
        forall|i: int| 0 <= i < s.len() ==> !is_white_space(#[trigger] s[i]),
    ensures
        word_scan(s) == (Seq::<Seq<char>>::empty(), s),
    decreases s.len(),
{
    if s.len() > 0 {
        let r = s.drop_last();
        assert forall|i: int| 0 <= i < r.len() implies !is_white_space(#[trigger] r[i]) by {
            assert(r[i] == s[i]);
        }
        lemma_word_scan_solid(r);
        assert(!is_white_space(s[s.len() - 1]));
        assert(r.push(s.last()) == s);
    }
}

/// A non-empty text without white space is one word, the whole text.
pub proof fn lemma_solid_text_is_one_word(s: Seq<char>)
    requires
        s.len() > 0,
        forall|i: int| 0 <= i < s.len() ==> !is_white_space(#[trigger] s[i]),
    ensures
        words_of(s) == seq![s],
{
    lemma_word_scan_solid(s);
    assert(Seq::<Seq<char>>::empty().push(s) == seq![s]);
}

/// A text of white space only has no words.
pub proof fn lemma_blank_text_has_no_words(s: Seq<char>)
    requires
        forall|i: int| 0 <= i < s.len() ==> is_white_space(#[trigger] s[i]),
    ensures
        words_of(s) == Seq::<Seq<char>>::empty(),
        word_scan(s) == (Seq::<Seq<char>>::empty(), Seq::<char>::empty()),
    decreases s.len(),
{
    if s.len() > 0 {
        let r = s.drop_last();
        assert forall|i: int| 0 <= i < r.len() implies is_white_space(#[trigger] r[i]) by {
            assert(r[i] == s[i]);
        }
        lemma_blank_text_has_no_words(r);
        assert(is_white_space(s[s.len() - 1]));
    }
}

proof fn lemma_word_scan_after_break(p: Seq<char>, b: Seq<char>)
    requires
        word_scan(p).1.len() == 0,
    ensures
        word_scan(p + b) == (word_scan(p).0 + word_scan(b).0, word_scan(b).1),
    decreases b.len(),
{
    if b.len() == 0 {
        assert(p + b == p);
        assert(word_scan(p).0 + Seq::<Seq<char>>::empty() == word_scan(p).0);
    } else {
        let b2 = b.drop_last();
        lemma_word_scan_after_break(p, b2);
        assert((p + b).drop_last() == p + b2);
        assert((p + b).last() == b.last());
        let x = word_scan(p).0;
        let y = word_scan(b2).0;
        let cur = word_scan(b2).1;
        assert((x + y).push(cur) == x + y.push(cur));
    }
}

/// Words are split at white space and nowhere else: a white-space character
/// between two texts separates their words, which are those of each text.
pub proof fn lemma_words_split_at_white_space(a: Seq<char>, w: char, b: Seq<char>)
    requires
        is_white_space(w),
    ensures
        words_of(a + seq![w] + b) == words_of(a) + words_of(b),
{
    let p = a + seq![w];
    assert(p.drop_last() == a);
    assert(word_scan(p) == (words_of(a), Seq::<char>::empty()));
    lemma_word_scan_after_break(p, b);
    let x = words_of(a);
    let sb = word_scan(b);
    if sb.1.len() > 0 {
        assert((x + sb.0).push(sb.1) == x + sb.0.push(sb.1));
    }
}

proof fn lemma_word_scan_chars(s: Seq<char>)
    ensures
        word_scan(s).0.flatten() + word_scan(s).1 == s.filter(|c: char| !is_white_space(c)),
    decreases s.len(),
{
    reveal(Seq::filter);
    if s.len() > 0 {
        let r = s.drop_last();
        lemma_word_scan_chars(r);
        let d = word_scan(r).0;
        let cur = word_scan(r).1;
        let c = s.last();
        if !is_white_space(c) {
            assert(d.flatten() + cur.push(c) == (d.flatten() + cur).push(c));
        } else if cur.len() > 0 {
            d.lemma_flatten_push(cur);
            assert(d.push(cur).flatten() + Seq::<char>::empty() == d.flatten() + cur);
        } else {
            assert(d.flatten() + Seq::<char>::empty() == d.flatten() + cur);
        }
    } else {
        assert(word_scan(s).0.flatten() == Seq::<char>::empty());
    }
}

/// The words, put together in order, are exactly the characters of the text
/// that are not white space, in their order.
pub proof fn lemma_words_keep_all_other_chars(s: Seq<char>)
    ensures
        words_of(s).flatten() == s.filter(|c: char| !is_white_space(c)),
{
    lemma_word_scan_chars(s);
    let d = word_scan(s).0;
    let cur = word_scan(s).1;
    if cur.len() > 0 {
        d.lemma_flatten_push(cur);
    } else {
        assert(d.flatten() + cur == d.flatten());
    }
}

proof fn lemma_trim_start_front(s: Seq<char>)
    ensures
        trim_start(s).len() == 0 || !is_white_space(trim_start(s)[0]),
    decreases s.len(),
{
    if s.len() > 0 && is_white_space(s[0]) {
        lemma_trim_start_front(s.drop_first());
    }
}

proof fn lemma_trim_end_back(s: Seq<char>)
    ensures
        trim_end(s).len() == 0 || !is_white_space(trim_end(s).last()),
        trim_end(s).len() <= s.len(),
        trim_end(s) == s.take(trim_end(s).len() as int),
    decreases s.len(),
{
    if s.len() > 0 && is_white_space(s.last()) {
        lemma_trim_end_back(s.drop_last());
        assert(s.drop_last().take(trim_end(s).len() as int) =~= s.take(trim_end(s).len() as int));
    } else {
        assert(s.take(s.len() as int) == s);
    }
}

/// Trimming a trimmed text changes nothing: the result of `trim` starts and
/// ends with a character that is not white space, or is empty.
pub proof fn lemma_trim_idempotent(s: Seq<char>)
    ensures
        trim(trim(s)) == trim(s),
        trim(s).len() == 0 || (!is_white_space(trim(s)[0]) && !is_white_space(trim(s).last())),
{
    let y = trim_start(s);
    let z = trim_end(y);
    lemma_trim_start_front(s);
    lemma_trim_end_back(y);
    if z.len() > 0 {
        assert(z[0] == y.take(z.len() as int)[0]);
        assert(trim_start(z) == z);
    } else {
        assert(trim_start(z) == z);
    }
    lemma_trim_end_back(z);
    if z.len() > 0 {
        assert(!is_white_space(z.last()));
    }
    assert(trim_end(z) == z);
}

} // verus!
