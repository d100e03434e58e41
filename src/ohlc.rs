use vstd::prelude::*;

verus! {

/// Open, high, low and close of every trade seen so far, and the timestamp
/// of the last one.
#[derive(Clone, Copy, Debug, PartialEq, Eq, Structural)]
pub struct Ohlc {
    pub open: u64,
    pub high: u64,
    pub low: u64,
    pub close: u64,
    pub last_timestamp: i64,
}

/// What one trade at `price` and `timestamp` makes of the summary `s`.
pub open spec fn ohlc_update(s: Option<Ohlc>, price: u64, timestamp: i64) -> Ohlc {
    match s {
        None => Ohlc { open: price, high: price, low: price, close: price, last_timestamp: timestamp },
        Some(o) => Ohlc {
            open: o.open,
            high: if price > o.high { price } else { o.high },
            low: if price < o.low { price } else { o.low },
            close: price,
            last_timestamp: timestamp,
        },
    }
}

/// The summary after trades at `prices`, in order, all at `timestamp`.
pub open spec fn ohlc_fold(s: Option<Ohlc>, prices: Seq<u64>, timestamp: i64) -> Option<Ohlc>
    decreases prices.len(),
{
    if prices.len() == 0 {
        s
    } else {
        Some(ohlc_update(ohlc_fold(s, prices.drop_last(), timestamp), prices.last(), timestamp))
    }
}

/// Largest element of a non-empty sequence.
pub open spec fn seq_max(s: Seq<u64>) -> u64
    decreases s.len(),
{
    if s.len() <= 1 {
        s[0]
    } else {
        let m = seq_max(s.drop_last());
        if s.last() > m { s.last() } else { m }
    }
}

/// Smallest element of a non-empty sequence.
pub open spec fn seq_min(s: Seq<u64>) -> u64
    decreases s.len(),
{
    if s.len() <= 1 {
        s[0]
    } else {
        let m = seq_min(s.drop_last());
        if s.last() < m { s.last() } else { m }
    }
}

/// Running price summary over all trades of a session. Empty until the
/// first trade; never reset.
pub struct OhlcTracker {
    state: Option<Ohlc>,
}

impl View for OhlcTracker {
    type V = Option<Ohlc>;

    closed spec fn view(&self) -> Option<Ohlc> {
        self.state
    }
}

impl OhlcTracker {
    /// A tracker that has seen no trade.
    pub fn new() -> (r: Self)
        ensures
            r@ == None::<Ohlc>,
    {
        OhlcTracker { state: None }
    }

    /// Folds one trade into the summary.
    pub fn update(&mut self, price: u64, timestamp: i64)
        ensures
            final(self)@ == Some(ohlc_update(old(self)@, price, timestamp)),
    {
        let next = match self.state {
            None => Ohlc { open: price, high: price, low: price, close: price, last_timestamp: timestamp },
            Some(o) => Ohlc {
                open: o.open,
                high: if price > o.high { price } else { o.high },
                low: if price < o.low { price } else { o.low },
                close: price,
                last_timestamp: timestamp,
            },
        };
        self.state = Some(next);
    }

    /// The current summary, or `None` before the first trade.
    pub fn snapshot(&self) -> (r: Option<Ohlc>)
        ensures
            r == self@,
    {
        self.state
    }
}

/// Whatever the trades, open is the first price, high the largest, low the
/// smallest and close the last, starting from an empty tracker.
pub proof fn lemma_fold_summary(prices: Seq<u64>, timestamp: i64)
    requires
        prices.len() > 0,
    ensures
        ohlc_fold(None, prices, timestamp) == Some(Ohlc {
            open: prices[0],
            high: seq_max(prices),
            low: seq_min(prices),
            close: prices.last(),
            last_timestamp: timestamp,
        }),
    decreases prices.len(),
{
    if prices.len() > 1 {
        lemma_fold_summary(prices.drop_last(), timestamp);
        assert(prices.drop_last()[0] == prices[0]);
    } else {
        assert(prices.drop_last() =~= Seq::<u64>::empty());
        assert(ohlc_fold(None, prices.drop_last(), timestamp) == None::<Ohlc>);
    }
}

} // verus!
