//! Small exercises: parity, a guessing game, string building, sums over
//! ranges and the most frequent word of a text.
use vstd::prelude::*;
use crate::text::{split_words, words_of};
use vstd::string::StringExecFns;

verus! {

/// What `str::to_lowercase` returns for the characters `s` (full Unicode
/// case mapping; a character may map to several).
pub uninterp spec fn lowercase(s: Seq<char>) -> Seq<char>;

/// `str::to_lowercase`; its result is named, not described.
#[verifier::external_body]
fn to_lowercase(s: &str) -> (r: String)
    ensures
        r@ == lowercase(s@),
{
    s.to_lowercase()
}

/// How many of `keys` equal `key`.
pub open spec fn key_count(keys: Seq<Seq<char>>, key: Seq<char>) -> nat
    decreases keys.len(),
{
    if keys.len() == 0 {
        0
    } else {
        key_count(keys.drop_last(), key) + if keys.last() == key {
            1nat
        } else {
            0nat
        }
    }
}

/// Position `k` holds a key that occurs most often, and no earlier position does.
pub open spec fn is_first_most_frequent(keys: Seq<Seq<char>>, k: int) -> bool {
    &&& 0 <= k < keys.len()
    &&& forall|j: int|
        0 <= j < keys.len() ==> key_count(keys, #[trigger] keys[j]) <= key_count(keys, keys[k])
    &&& forall|j: int|
        0 <= j < k ==> key_count(keys, #[trigger] keys[j]) < key_count(keys, keys[k])
}

/// The result of picking, among `words` compared by `keys`, the first of the
/// most frequent ones with its number of occurrences; `("", 0)` when there is none.
pub open spec fn most_frequent_spec(
    words: Seq<Seq<char>>,
    keys: Seq<Seq<char>>,
    word: Seq<char>,
    count: nat,
) -> bool {
    if words.len() == 0 {
        word == Seq::<char>::empty() && count == 0
    } else {
        exists|k: int|
            #[trigger] is_first_most_frequent(keys, k) && word == words[k] && count == key_count(
                keys,
                keys[k],
            )
    }
}

proof fn lemma_key_count_positive(keys: Seq<Seq<char>>, i: int)
    requires
        0 <= i < keys.len(),
    ensures
        key_count(keys, keys[i]) >= 1,
    decreases keys.len(),
{
    if i < keys.len() - 1 {
        lemma_key_count_positive(keys.drop_last(), i);
        assert(keys.drop_last()[i] == keys[i]);
    }
}

proof fn lemma_key_count_bounded(keys: Seq<Seq<char>>, key: Seq<char>)
    ensures
        key_count(keys, key) <= keys.len(),
    decreases keys.len(),
{
    if keys.len() > 0 {
        lemma_key_count_bounded(keys.drop_last(), key);
    }
}

/// How many of `keys` equal `keys[i]`.
fn count_key(keys: &Vec<String>, i: usize) -> (c: usize)
    requires
        i < keys.len(),
    ensures
        c == key_count(keys.deep_view(), keys.deep_view()[i as int]),
{
    let ghost ks = keys.deep_view();
    let n = keys.len();
    let mut c: usize = 0;
    for j in 0..n
        invariant
            n == keys.len() == ks.len(),
            i < n,
            ks == keys.deep_view(),
            c == key_count(ks.take(j as int), ks[i as int]),
            c <= j,
    {
        assert(ks.take(j + 1).drop_last() == ks.take(j as int));
        assert(ks[j as int] == keys[j as int]@);
        if keys[j] == keys[i] {
            c = c + 1;
        }
    }
    assert(ks.take(n as int) == ks);
    c
}

/// Among `words`, compared through `keys` (one key per word), the first of
/// the words that occur most often, and how often it occurs.
pub fn most_frequent_by_key(words: &Vec<String>, keys: &Vec<String>) -> (r: (String, usize))
    requires
        keys.len() == words.len(),
    ensures
        most_frequent_spec(words.deep_view(), keys.deep_view(), r.0@, r.1 as nat),
        r.1 <= words.len(),
        r.1 == 0 <==> words.len() == 0,
{
    let ghost ks = keys.deep_view();
    let ghost ws = words.deep_view();
    let n = words.len();
    let mut max_word = String::new();
    let mut max_count: usize = 0;
    let mut best: usize = 0;
    for i in 0..n
        invariant
            n == words.len() == keys.len() == ks.len() == ws.len(),
            ks == keys.deep_view(),
            ws == words.deep_view(),
            i == 0 ==> max_word@ == Seq::<char>::empty() && max_count == 0,
            i > 0 ==> best < i && max_word@ == ws[best as int] && max_count == key_count(
                ks,
                ks[best as int],
            ),
            i > 0 ==> forall|j: int|
                0 <= j < i ==> key_count(ks, #[trigger] ks[j]) <= max_count,
            i > 0 ==> forall|j: int|
                0 <= j < best ==> key_count(ks, #[trigger] ks[j]) < max_count,
    {
        let count = count_key(keys, i);
        proof {
            lemma_key_count_positive(ks, i as int);
        }
        if count > max_count {
            max_count = count;
            max_word = words[i].clone();
            best = i;
        }
    }
    if n > 0 {
        assert(is_first_most_frequent(ks, best as int));
        proof {
            lemma_key_count_positive(ks, best as int);
            lemma_key_count_bounded(ks, ks[best as int]);
        }
    }
    (max_word, max_count)
}

/// The words of `text` in lower case.
pub open spec fn lowered_words(text: Seq<char>) -> Seq<Seq<char>> {
    words_of(text).map_values(|w: Seq<char>| lowercase(w))
}

/// The first of the most frequent words of `text`, words being compared
/// without regard to case, with its number of occurrences; `("", 0)` for a
/// text without words.
pub fn most_frequent_word(text: &str) -> (r: (String, usize))
    ensures
        most_frequent_spec(words_of(text@), lowered_words(text@), r.0@, r.1 as nat),
        r.1 <= words_of(text@).len(),
        r.1 == 0 <==> words_of(text@).len() == 0,
{
    let words = split_words(text);
    let n = words.len();
    let mut keys: Vec<String> = Vec::new();
    for i in 0..n
        invariant
            n == words.len(),
            words.deep_view() == words_of(text@),
            keys.len() == i,
            forall|j: int| 0 <= j < i ==> #[trigger] keys@[j]@ == lowercase(words@[j]@),
    {
        keys.push(to_lowercase(words[i].as_str()));
    }
    assert(keys.deep_view() == lowered_words(text@));
    most_frequent_by_key(&words, &keys)
}


/// Whether `n` is even.
pub fn is_even(n: i32) -> (b: bool)
    ensures
        b == (n % 2 == 0),
{
    n % 2 == 0
}

/// The answer to a guess: `0` when it is the secret, `1` when it is too
/// high, `-1` when it is too low.
pub fn check_guess(guess: i32, secret: i32) -> (r: i32)
    ensures
        r == guess_answer(guess, secret),
        r == 0 <==> guess == secret,
        r == 1 <==> guess > secret,
        r == -1 <==> guess < secret,
{
    if guess == secret {
        0
    } else if guess > secret {
        1
    } else {
        -1
    }
}

/// Swapping the guess and the secret turns the answer around.
pub proof fn lemma_check_guess_antisymmetric(a: i32, b: i32)
    ensures
        guess_answer(a, b) == -guess_answer(b, a),
{
}

/// The answer `check_guess` gives.
pub open spec fn guess_answer(guess: i32, secret: i32) -> int {
    if guess == secret {
        0
    } else if guess > secret {
        1
    } else {
        -1
    }
}

/// `s1` followed by `s2`.
pub fn concat_strings(s1: &String, s2: &String) -> (r: String)
    ensures
        r@ == s1@ + s2@,
{
    let mut result = s1.clone();
    result.append(s2.as_str());
    result
}

/// `s` followed by `"World!"`: `"Hello, "` becomes `"Hello, World!"`.
pub fn clone_and_modify(s: &String) -> (r: String)
    ensures
        r@ == s@ + "World!"@,
{
    let mut result = s.clone();
    result.append("World!");
    result
}

/// The sum of `from`, `from + step`, `from + 2 * step`, ... as long as the
/// terms do not exceed `high`; zero when `step` is not positive.
pub open spec fn stepped_sum(from: int, high: int, step: int) -> int
    decreases (if from <= high { high - from + 1 } else { 0 }),
{
    if step <= 0 || from > high {
        0
    } else {
        from + stepped_sum(from + step, high, step)
    }
}

/// Adding the terms of `stepped_sum(from, high, step)` one by one to `acc`
/// keeps every partial sum within `i32`.
pub open spec fn sums_fit(from: int, high: int, step: int, acc: int) -> bool
    decreases (if from <= high { high - from + 1 } else { 0 }),
{
    if step <= 0 || from > high {
        true
    } else {
        i32::MIN <= acc + from <= i32::MAX && sums_fit(from + step, high, step, acc + from)
    }
}

/// Each term of `stepped_sum(from, high, step)` plus `step` still fits in `i32`.
pub open spec fn next_terms_fit(from: int, high: int, step: int) -> bool
    decreases (if from <= high { high - from + 1 } else { 0 }),
{
    if step <= 0 || from > high {
        true
    } else {
        from + step <= i32::MAX && next_terms_fit(from + step, high, step)
    }
}

/// Sets `*sum` to the sum of `low`, `low + step`, ... up to `high`, or to
/// zero when `step` is not positive.
pub fn sum_with_step(sum: &mut i32, low: i32, high: i32, step: i32)
    requires
        sums_fit(low as int, high as int, step as int, 0),
        next_terms_fit(low as int, high as int, step as int),
    ensures
        *final(sum) == stepped_sum(low as int, high as int, step as int),
{
    *sum = 0;
    if step <= 0 {
        return ;
    }
    let mut current = low;
    while current <= high
        invariant
            step > 0,
            *sum + stepped_sum(current as int, high as int, step as int) == stepped_sum(
                low as int,
                high as int,
                step as int,
            ),
            sums_fit(current as int, high as int, step as int, *sum as int),
            next_terms_fit(current as int, high as int, step as int),
        decreases (if current <= high { high - current + 1 } else { 0 }),
    {
        *sum += current;
        current += step;
    }
}

/// Sets `*total` to the sum of the numbers from `low` to `high`, both included.
pub fn sum(total: &mut i32, low: i32, high: i32)
    requires
        sums_fit(low as int, high as int, 1, 0),
    ensures
        *final(total) == stepped_sum(low as int, high as int, 1),
{
    *total = 0;
    if low > high {
        return ;
    }
    let mut i = low;
    while i < high
        invariant
            low <= i <= high,
            *total + stepped_sum(i as int, high as int, 1) == stepped_sum(
                low as int,
                high as int,
                1,
            ),
            sums_fit(i as int, high as int, 1, *total as int),
        decreases high - i,
    {
        *total += i;
        i += 1;
    }
    *total += i;
    assert(stepped_sum(i + 1, high as int, 1) == 0);
}

/// Adds the numbers from `low` to `high`, both included, to `*total`,
/// one number per recursive call.
pub fn sum_recursive(total: &mut i32, low: i32, high: i32)
    requires
        sums_fit(low as int, high as int, 1, *old(total) as int),
        next_terms_fit(low as int, high as int, 1),
    ensures
        *final(total) == *old(total) + stepped_sum(low as int, high as int, 1),
    decreases high - low + 1,
{
    if low > high {
        return ;
    }
    *total += low;
    sum_recursive(total, low + 1, high);
}

/// The sum of the numbers from `low` to `high` is the number of terms times
/// the mean of the first and the last: `n(n+1)/2` when `low` is 1.
pub proof fn lemma_range_sum_formula(low: int, high: int)
    requires
        low <= high + 1,
    ensures
        2 * stepped_sum(low, high, 1) == (high - low + 1) * (low + high),
    decreases high - low + 1,
{
    if low <= high {
        lemma_range_sum_formula(low + 1, high);
        assert((high - low + 1) * (low + high) == 2 * low + (high - (low + 1) + 1) * ((low + 1)
            + high)) by (nonlinear_arith);
    } else {
        assert((high - low + 1) * (low + high) == 0) by (nonlinear_arith)
            requires
                low == high + 1,
        ;
    }
}

} // verus!
