//! Picking a price out of the chart data of a market-data service; the
//! price type is left open.
use vstd::prelude::*;

verus! {

/// One quote series of a chart: its closing prices, some of them missing.
pub struct Quote<T> {
    pub close: Option<Vec<Option<T>>>,
}

/// The indicators of a chart entry.
pub struct Indicators<T> {
    pub quote: Option<Vec<Quote<T>>>,
}

/// One entry of a chart: the regular market price, when given, and the
/// indicators.
pub struct ChartEntry<T> {
    pub regular_market_price: Option<T>,
    pub indicators: Option<Indicators<T>>,
}

/// The last value of `values` that is present.
pub open spec fn last_present<T>(values: Seq<Option<T>>) -> Option<T>
    decreases values.len(),
{
    if values.len() == 0 {
        None
    } else if values.last() is Some {
        values.last()
    } else {
        last_present(values.drop_last())
    }
}

/// The last value of `values` that is present, if any.
pub fn latest_close<T: Copy>(values: &Vec<Option<T>>) -> (r: Option<T>)
    ensures
        r == last_present(values@),
{
    let mut i = values.len();
    assert(values@.take(i as int) == values@);
    while i > 0
        invariant
            i <= values.len(),
            last_present(values@) == last_present(values@.take(i as int)),
        decreases i,
    {
        assert(values@.take(i as int).drop_last() == values@.take(i - 1));
        match &values[i - 1] {
            Some(v) => {
                return Some(*v);
            },
            None => {},
        }
        i = i - 1;
    }
    None
}

/// The price a chart gives: the regular market price of its first entry if
/// there is one, else the last closing price present in the first quote
/// series of that entry.
pub open spec fn chart_price_spec<T>(result: Option<Vec<ChartEntry<T>>>) -> Option<T> {
    match result {
        None => None,
        Some(entries) => if entries@.len() == 0 {
            None
        } else {
            let first = entries@[0];
            match first.regular_market_price {
                Some(p) => Some(p),
                None => match first.indicators {
                    None => None,
                    Some(ind) => match ind.quote {
                        None => None,
                        Some(quotes) => if quotes@.len() == 0 {
                            None
                        } else {
                            match quotes@[0].close {
                                None => None,
                                Some(closes) => last_present(closes@),
                            }
                        },
                    },
                },
            }
        },
    }
}

/// The price a chart gives, or `None` when it gives none.
pub fn chart_price<T: Copy>(result: &Option<Vec<ChartEntry<T>>>) -> (r: Option<T>)
    ensures
        r == chart_price_spec(*result),
{
    match result {
        None => None,
        Some(entries) => {
            if entries.len() == 0 {
                return None;
            }
            let first = &entries[0];
            match &first.regular_market_price {
                Some(p) => Some(*p),
                None => match &first.indicators {
                    None => None,
                    Some(ind) => match &ind.quote {
                        None => None,
                        Some(quotes) => {
                            if quotes.len() == 0 {
                                None
                            } else {
                                match &quotes[0].close {
                                    None => None,
                                    Some(closes) => latest_close(closes),
                                }
                            }
                        },
                    },
                },
            }
        },
    }
}

/// `last_present` gives a value exactly when it stands at some position of
/// `values` after which every value is missing.
proof fn lemma_last_present_position<T>(values: Seq<Option<T>>)
    ensures
        forall|v: T|
            last_present(values) == Some(v) <==> exists|i: int|
                0 <= i < values.len() && #[trigger] values[i] == Some(v) && forall|j: int|
                    i < j < values.len() ==> (#[trigger] values[j]) is None,
        last_present(values) is None <==> forall|i: int|
            0 <= i < values.len() ==> (#[trigger] values[i]) is None,
    decreases values.len(),
{
    if values.len() > 0 {
        let rest = values.drop_last();
        lemma_last_present_position(rest);
        let n = values.len() - 1;
        assert forall|v: T|
            last_present(values) == Some(v) <==> exists|i: int|
                0 <= i < values.len() && #[trigger] values[i] == Some(v) && forall|j: int|
                    i < j < values.len() ==> (#[trigger] values[j]) is None by {
            if values.last() is Some {
                if last_present(values) == Some(v) {
                    assert(values[n] == Some(v));
                }
                if exists|i: int|
                    0 <= i < values.len() && #[trigger] values[i] == Some(v) && forall|j: int|
                        i < j < values.len() ==> (#[trigger] values[j]) is None {
                    let i = choose|i: int|
                        0 <= i < values.len() && #[trigger] values[i] == Some(v) && forall|j: int|
                            i < j < values.len() ==> (#[trigger] values[j]) is None;
                    if i < n {
                        assert(values[n] is None);
                    }
                }
            } else {
                if last_present(values) == Some(v) {
                    let i = choose|i: int|
                        0 <= i < rest.len() && #[trigger] rest[i] == Some(v) && forall|j: int|
                            i < j < rest.len() ==> (#[trigger] rest[j]) is None;
                    assert(values[i] == rest[i]);
                    assert forall|j: int| i < j < values.len() implies (#[trigger] values[j]) is None by {
                        if j < n {
                            assert(values[j] == rest[j]);
                        }
                    }
                }
                if exists|i: int|
                    0 <= i < values.len() && #[trigger] values[i] == Some(v) && forall|j: int|
                        i < j < values.len() ==> (#[trigger] values[j]) is None {
                    let i = choose|i: int|
                        0 <= i < values.len() && #[trigger] values[i] == Some(v) && forall|j: int|
                            i < j < values.len() ==> (#[trigger] values[j]) is None;
                    assert(i < n);
                    assert(rest[i] == values[i]);
                    assert forall|j: int| i < j < rest.len() implies (#[trigger] rest[j]) is None by {
                        assert(rest[j] == values[j]);
                    }
                }
            }
        }
        assert(last_present(values) is None <==> forall|i: int|
            0 <= i < values.len() ==> (#[trigger] values[i]) is None) by {
            if last_present(values) is None {
                assert forall|i: int| 0 <= i < values.len() implies (#[trigger] values[i]) is None by {
                    if i < n {
                        assert(rest[i] == values[i]);
                    }
                }
            }
            if forall|i: int| 0 <= i < values.len() ==> (#[trigger] values[i]) is None {
                assert(values[n] is None);
                assert forall|i: int| 0 <= i < rest.len() implies (#[trigger] rest[i]) is None by {
                    assert(rest[i] == values[i]);
                }
            }
        }
    }
}

/// The first quote series' closes of a chart whose first entry gives no
/// regular market price.
pub open spec fn closes_of_first_series<T>(
    result: Option<Vec<ChartEntry<T>>>,
    closes: Vec<Option<T>>,
) -> bool {
    &&& result is Some
    &&& result->0@.len() > 0
    &&& result->0@[0].regular_market_price is None
    &&& result->0@[0].indicators is Some
    &&& result->0@[0].indicators->0.quote is Some
    &&& result->0@[0].indicators->0.quote->0@.len() > 0
    &&& result->0@[0].indicators->0.quote->0@[0].close == Some(closes)
}

/// Without a regular market price, the price of a chart is the last close
/// present in its first quote series: it is `Some(v)` exactly when `v` stands
/// in the closes with only missing values after it, and `None` exactly when
/// every close is missing.
pub proof fn lemma_chart_price_is_last_close<T>(
    result: Option<Vec<ChartEntry<T>>>,
    closes: Vec<Option<T>>,
)
    requires
        closes_of_first_series(result, closes),
    ensures
        forall|v: T|
            chart_price_spec(result) == Some(v) <==> exists|i: int|
                0 <= i < closes@.len() && #[trigger] closes@[i] == Some(v) && forall|j: int|
                    i < j < closes@.len() ==> (#[trigger] closes@[j]) is None,
        chart_price_spec(result) is None <==> forall|i: int|
            0 <= i < closes@.len() ==> (#[trigger] closes@[i]) is None,
{
    lemma_last_present_position(closes@);
}

/// A regular market price given by the first entry of a chart is its price.
pub proof fn lemma_chart_price_prefers_regular<T>(result: Option<Vec<ChartEntry<T>>>, p: T)
    requires
        result is Some,
        result->0@.len() > 0,
        result->0@[0].regular_market_price == Some(p),
    ensures
        chart_price_spec(result) == Some(p),
{
}

/// A chart without entries gives no price.
pub proof fn lemma_chart_price_needs_an_entry<T>(result: Option<Vec<ChartEntry<T>>>)
    requires
        result is None || result->0@.len() == 0,
    ensures
        chart_price_spec(result) is None,
{
}

} // verus!
