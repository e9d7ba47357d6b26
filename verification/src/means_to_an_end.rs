//! Prices of one asset over time, and their mean over a span of time.
//!
//! A client sends messages of nine bytes: a letter and two signed 32-bit
//! numbers, most significant byte first. `I` inserts a price at a time, `Q`
//! asks for the mean price between two times.

use vstd::prelude::*;

verus! {

#[derive(Debug, Clone, Copy, PartialEq, Eq, Structural)]
pub struct AssetPrice {
    pub timestamp: i32,
    pub price: i32,
}

impl AssetPrice {
    pub fn new(timestamp: i32, price: i32) -> (asset: Self)
        ensures
            asset == (AssetPrice { timestamp, price }),
    {
        Self { timestamp, price }
    }
}

/// What a client asks for.
#[derive(Debug, Clone, Copy, PartialEq, Eq, Structural)]
pub enum Request {
    Insert(AssetPrice),
    Query { start_time: i32, end_time: i32 },
}

/// `I`
pub const INSERT: u8 = 0x49;

/// `Q`
pub const QUERY: u8 = 0x51;

/// The signed 32-bit number whose bytes, most significant first, are these.
pub open spec fn be_i32(b0: u8, b1: u8, b2: u8, b3: u8) -> i32 {
    let unsigned = b0 as int * 0x100_0000 + b1 as int * 0x1_0000 + b2 as int * 0x100 + b3 as int;
    if unsigned >= 0x8000_0000 {
        (unsigned - 0x1_0000_0000) as i32
    } else {
        unsigned as i32
    }
}

/// The request that a message of nine bytes carries, if its letter is known.
pub open spec fn request_of(message: Seq<u8>) -> Option<Request> {
    let first = be_i32(message[1], message[2], message[3], message[4]);
    let second = be_i32(message[5], message[6], message[7], message[8]);
    if message[0] == INSERT {
        Some(Request::Insert(AssetPrice { timestamp: first, price: second }))
    } else if message[0] == QUERY {
        Some(Request::Query { start_time: first, end_time: second })
    } else {
        None
    }
}

fn read_i32(b0: u8, b1: u8, b2: u8, b3: u8) -> (value: i32)
    ensures
        value == be_i32(b0, b1, b2, b3),
{
    let unsigned: u32 = (b0 as u32) * 0x100_0000 + (b1 as u32) * 0x1_0000 + (b2 as u32) * 0x100
        + b3 as u32;
    if unsigned >= 0x8000_0000 {
        let low: u32 = unsigned - 0x8000_0000;
        (low as i32) - 0x4000_0000 - 0x4000_0000
    } else {
        unsigned as i32
    }
}

/// Reads one message. The result is `None` if the letter of the message is
/// neither `I` nor `Q`.
pub fn parse_request(message: &[u8; 9]) -> (request: Option<Request>)
    ensures
        request == request_of(message@),
{
    let first = read_i32(message[1], message[2], message[3], message[4]);
    let second = read_i32(message[5], message[6], message[7], message[8]);
    if message[0] == INSERT {
        Some(Request::Insert(AssetPrice::new(first, second)))
    } else if message[0] == QUERY {
        Some(Request::Query { start_time: first, end_time: second })
    } else {
        None
    }
}

/// The four bytes of a signed 32-bit number, most significant first.
pub fn write_i32(value: i32) -> (bytes: [u8; 4])
    ensures
        be_i32(bytes[0], bytes[1], bytes[2], bytes[3]) == value,
{
    let unsigned: u32 = if value < 0 {
        (value + 0x4000_0000 + 0x4000_0000) as u32 + 0x8000_0000
    } else {
        value as u32
    };
    let b0: u8 = (unsigned / 0x100_0000) as u8;
    let b1: u8 = ((unsigned / 0x1_0000) % 0x100) as u8;
    let b2: u8 = ((unsigned / 0x100) % 0x100) as u8;
    let b3: u8 = (unsigned % 0x100) as u8;
    [b0, b1, b2, b3]
}

pub open spec fn in_span(asset: AssetPrice, start_time: i32, end_time: i32) -> bool {
    start_time <= asset.timestamp <= end_time
}

/// The sum of the prices of `prices` whose time lies in the span.
pub open spec fn sum_in_span(prices: Seq<AssetPrice>, start_time: i32, end_time: i32) -> int
    decreases prices.len(),
{
    if prices.len() == 0 {
        0
    } else {
        sum_in_span(prices.drop_last(), start_time, end_time) + if in_span(
            prices.last(),
            start_time,
            end_time,
        ) {
            prices.last().price as int
        } else {
            0
        }
    }
}

/// How many prices of `prices` have their time in the span.
pub open spec fn count_in_span(prices: Seq<AssetPrice>, start_time: i32, end_time: i32) -> nat
    decreases prices.len(),
{
    if prices.len() == 0 {
        0
    } else {
        count_in_span(prices.drop_last(), start_time, end_time) + if in_span(
            prices.last(),
            start_time,
            end_time,
        ) {
            1nat
        } else {
            0nat
        }
    }
}

/// The quotient of `sum` by `count`, rounded toward zero.
pub open spec fn quotient_toward_zero(sum: int, count: int) -> int {
    if sum >= 0 {
        sum / count
    } else {
        -((-sum) / count)
    }
}

/// The mean of the prices whose time lies in the span, rounded toward zero,
/// and 0 if there is none.
pub open spec fn mean_in_span(prices: Seq<AssetPrice>, start_time: i32, end_time: i32) -> int {
    if count_in_span(prices, start_time, end_time) == 0 {
        0
    } else {
        quotient_toward_zero(
            sum_in_span(prices, start_time, end_time),
            count_in_span(prices, start_time, end_time) as int,
        )
    }
}

pub open spec fn sorted_by_time(prices: Seq<AssetPrice>) -> bool {
    forall|i: int, j: int| 0 <= i <= j < prices.len() ==> prices[i].timestamp <= prices[j].timestamp
}

/// The sum of the chosen prices is bounded by their number.
pub proof fn lemma_sum_bounds(prices: Seq<AssetPrice>, start_time: i32, end_time: i32)
    ensures
        count_in_span(prices, start_time, end_time) <= prices.len(),
        -0x8000_0000 * count_in_span(prices, start_time, end_time) <= sum_in_span(
            prices,
            start_time,
            end_time,
        ) <= 0x7fff_ffff * count_in_span(prices, start_time, end_time),
    decreases prices.len(),
{
    if prices.len() > 0 {
        lemma_sum_bounds(prices.drop_last(), start_time, end_time);
    }
}

/// A span that ends before it begins holds no price.
pub proof fn lemma_empty_span(prices: Seq<AssetPrice>, start_time: i32, end_time: i32)
    requires
        start_time > end_time,
    ensures
        count_in_span(prices, start_time, end_time) == 0,
        mean_in_span(prices, start_time, end_time) == 0,
    decreases prices.len(),
{
    if prices.len() > 0 {
        lemma_empty_span(prices.drop_last(), start_time, end_time);
    }
}

/// Behind a price that is later than the span nothing of a sorted history
/// lies in the span.
proof fn lemma_nothing_later(prices: Seq<AssetPrice>, k: int, start_time: i32, end_time: i32)
    requires
        sorted_by_time(prices),
        0 <= k <= prices.len(),
        k < prices.len() ==> prices[k].timestamp > end_time,
    ensures
        sum_in_span(prices, start_time, end_time) == sum_in_span(
            prices.take(k),
            start_time,
            end_time,
        ),
        count_in_span(prices, start_time, end_time) == count_in_span(
            prices.take(k),
            start_time,
            end_time,
        ),
    decreases prices.len() - k,
{
    if k == prices.len() {
        assert(prices.take(k) =~= prices);
    } else {
        let shorter = prices.drop_last();
        if k < shorter.len() {
            assert(shorter[k] == prices[k]);
        }
        lemma_nothing_later(shorter, k, start_time, end_time);
        assert(shorter.take(k) =~= prices.take(k));
    }
}

/// The prices that one client has inserted, in the order of their times.
pub struct PriceHistory {
    prices: Vec<AssetPrice>,
}

impl View for PriceHistory {
    type V = Seq<AssetPrice>;

    closed spec fn view(&self) -> Seq<AssetPrice> {
        self.prices@
    }
}

impl PriceHistory {
    pub open spec fn wf(&self) -> bool {
        sorted_by_time(self@)
    }

    pub fn new() -> (history: Self)
        ensures
            history.wf(),
            history@ == Seq::<AssetPrice>::empty(),
    {
        PriceHistory { prices: Vec::new() }
    }

    /// Inserts a price behind all prices that are not later than it.
    pub fn insert(&mut self, asset: AssetPrice)
        requires
            old(self).wf(),
        ensures
            final(self).wf(),
            exists|at: int|
                {
                    &&& 0 <= at <= old(self)@.len()
                    &&& final(self)@ == old(self)@.insert(at, asset)
                    &&& forall|j: int| 0 <= j < at ==> old(self)@[j].timestamp <= asset.timestamp
                    &&& forall|j: int|
                        at <= j < old(self)@.len() ==> old(self)@[j].timestamp > asset.timestamp
                },
    {
        let mut at: usize = self.prices.len();
        while at > 0 && self.prices[at - 1].timestamp > asset.timestamp
            invariant
                at <= self.prices.len(),
                self.prices@ == old(self)@,
                sorted_by_time(self.prices@),
                forall|j: int| at <= j < self.prices.len() ==> self.prices@[j].timestamp
                    > asset.timestamp,
            decreases at,
        {
            at -= 1;
        }
        self.prices.insert(at, asset);
        proof {
            let before = old(self)@;
            let after = self@;
            assert forall|i: int, j: int| 0 <= i <= j < after.len() implies after[i].timestamp
                <= after[j].timestamp by {
                let bi = if i < at { i } else { i - 1 };
                let bj = if j < at { j } else { j - 1 };
                if i != at && j != at {
                    assert(after[i] == before[bi]);
                } else if i == at && j != at {
                    assert(after[j] == before[bj]);
                } else if j == at && i != at {
                    if at > 0 {
                        assert(before[bi].timestamp <= before[at - 1].timestamp);
                    }
                }
            }
            assert forall|j: int| 0 <= j < at implies before[j].timestamp <= asset.timestamp by {
                assert(before[j].timestamp <= before[at - 1].timestamp);
            }
        }
    }

    /// The mean of the prices between `start_time` and `end_time`, both
    /// included, rounded toward zero; 0 if there is no such price or the
    /// span ends before it begins.
    pub fn mean(&self, start_time: i32, end_time: i32) -> (mean: i32)
        requires
            self.wf(),
        ensures
            mean == mean_in_span(self@, start_time, end_time),
    {
        if start_time > end_time {
            proof {
                lemma_empty_span(self@, start_time, end_time);
            }
            return 0;
        }
        let mut sum: i128 = 0;
        let mut count: u64 = 0;
        let mut i: usize = 0;
        while i < self.prices.len() && self.prices[i].timestamp <= end_time
            invariant
                i <= self.prices.len(),
                sum == sum_in_span(self@.take(i as int), start_time, end_time),
                count == count_in_span(self@.take(i as int), start_time, end_time),
                count <= i,
            decreases self.prices.len() - i,
        {
            proof {
                assert(self@.take(i + 1).drop_last() =~= self@.take(i as int));
                lemma_sum_bounds(self@.take(i as int), start_time, end_time);
            }
            if self.prices[i].timestamp >= start_time {
                sum = sum + self.prices[i].price as i128;
                count = count + 1;
            }
            i += 1;
        }
        proof {
            lemma_nothing_later(self@, i as int, start_time, end_time);
            lemma_sum_bounds(self@, start_time, end_time);
        }
        if count == 0 {
            return 0;
        }
        let ghost total = sum_in_span(self@, start_time, end_time);
        let ghost n = count_in_span(self@, start_time, end_time) as int;
        if sum >= 0 {
            let quotient: u128 = (sum as u128) / (count as u128);
            proof {
                assert(total / n <= 0x7fff_ffff) by (nonlinear_arith)
                    requires
                        0 <= total <= 0x7fff_ffff * n,
                        n > 0,
                ;
                assert(total / n >= 0) by (nonlinear_arith)
                    requires
                        0 <= total,
                        n > 0,
                ;
            }
            quotient as i32
        } else {
            let quotient: u128 = ((-sum) as u128) / (count as u128);
            proof {
                assert((-total) / n <= 0x8000_0000) by (nonlinear_arith)
                    requires
                        0 < -total <= 0x8000_0000 * n,
                        n > 0,
                ;
                assert((-total) / n >= 0) by (nonlinear_arith)
                    requires
                        0 < -total,
                        n > 0,
                ;
            }
            let magnitude: i64 = quotient as i64;
            (-magnitude) as i32
        }
    }
}

} // verus!
