use vstd::prelude::*;
use vstd::string::StrSliceExecFns;

verus! {

/// A tradable instrument: its symbol, the two assets it exchanges and its tick size.
#[derive(Debug)]
pub struct Market {
    pub symbol: String,
    pub base_asset: String,
    pub quote_asset: String,
    pub tick_size: u64,
}

impl Clone for Market {
    fn clone(&self) -> (r: Self)
        ensures
            r == *self,
    {
        Market {
            symbol: self.symbol.clone(),
            base_asset: self.base_asset.clone(),
            quote_asset: self.quote_asset.clone(),
            tick_size: self.tick_size,
        }
    }
}

impl Market {
    /// Builds a market from borrowed names.
    pub fn new(symbol: &str, base: &str, quote: &str, tick_size: u64) -> (m: Self)
        ensures
            m.symbol@ == symbol@,
            m.base_asset@ == base@,
            m.quote_asset@ == quote@,
            m.tick_size == tick_size,
    {
        Market {
            symbol: symbol.to_owned(),
            base_asset: base.to_owned(),
            quote_asset: quote.to_owned(),
            tick_size,
        }
    }
}

/// The part of a symbol before its first `-` (the whole symbol when it has none).
pub open spec fn symbol_base(symbol: Seq<char>) -> Seq<char> {
    match symbol.index_of_first('-') {
        Some(i) => symbol.take(i),
        None => symbol,
    }
}

/// The part of a symbol after its last `-` (the whole symbol when it has none).
pub open spec fn symbol_quote(symbol: Seq<char>) -> Seq<char> {
    match symbol.index_of_last('-') {
        Some(i) => symbol.skip(i + 1),
        None => symbol,
    }
}

/// A symbol with a `-` is its quote asset, the whole part after its last `-`,
/// behind some prefix and that `-`; the quote holds no `-`. A symbol without a
/// `-` is its own quote.
pub proof fn quote_is_all_after_last_dash(symbol: Seq<char>)
    ensures
        !symbol_quote(symbol).contains('-'),
        symbol.contains('-') ==> symbol == symbol.take(
            symbol.len() as int - symbol_quote(symbol).len() as int - 1,
        ) + seq!['-'] + symbol_quote(symbol),
        !symbol.contains('-') ==> symbol_quote(symbol) == symbol,
{
    symbol.index_of_last_ensures('-');
    match symbol.index_of_last('-') {
        Some(i) => {
            let q = symbol.skip(i + 1);
            assert forall|k: int| 0 <= k < q.len() implies q[k] != '-' by {
                assert(q[k] == symbol[i + 1 + k]);
            }
            assert(symbol =~= symbol.take(i) + seq!['-'] + q);
        },
        None => {},
    }
}

/// A symbol with a `-` is its base asset, the whole part before its first
/// `-`, followed by that `-` and the rest; the base holds no `-`. A symbol
/// without a `-` is its own base.
pub proof fn base_is_all_before_first_dash(symbol: Seq<char>)
    ensures
        !symbol_base(symbol).contains('-'),
        symbol.contains('-') ==> symbol == symbol_base(symbol) + seq!['-'] + symbol.skip(
            symbol_base(symbol).len() as int + 1,
        ),
        !symbol.contains('-') ==> symbol_base(symbol) == symbol,
{
    symbol.index_of_first_ensures('-');
    match symbol.index_of_first('-') {
        Some(i) => {
            let b = symbol.take(i);
            assert forall|k: int| 0 <= k < b.len() implies b[k] != '-' by {
                assert(b[k] == symbol[k]);
            }
            assert(symbol =~= b + seq!['-'] + symbol.skip(i + 1));
        },
        None => {},
    }
}

/// The first `-`-separated part of a symbol, as in `"BTC-USD"` to `"BTC"`.
pub fn base_of_symbol(symbol: &str) -> (r: String)
    ensures
        r@ == symbol_base(symbol@),
{
    let n = symbol.unicode_len();
    let mut i: usize = 0;
    while i < n
        invariant
            n == symbol@.len(),
            i <= n,
            forall|j: int| 0 <= j < i ==> symbol@[j] != '-',
        decreases n - i,
    {
        if symbol.get_char(i) == '-' {
            proof {
                symbol@.index_of_first_ensures('-');
                assert(symbol@.contains('-'));
                let k = symbol@.index_of_first('-')->0;
                assert(k == i as int) by {
                    if k < i {
                        assert(symbol@[k] != '-');
                    } else if k > i {
                        assert(symbol@[i as int] != '-');
                    }
                }
            }
            return symbol.substring_char(0, i).to_owned();
        }
        i = i + 1;
    }
    proof {
        symbol@.index_of_first_ensures('-');
        assert(!symbol@.contains('-'));
    }
    let r = symbol.to_owned();
    r
}

/// The last `-`-separated part of a symbol, as in `"BTC-USD"` to `"USD"`.
pub fn quote_of_symbol(symbol: &str) -> (r: String)
    ensures
        r@ == symbol_quote(symbol@),
{
    let n = symbol.unicode_len();
    let mut i: usize = n;
    while i > 0
        invariant
            n == symbol@.len(),
            i <= n,
            forall|j: int| i <= j < n ==> symbol@[j] != '-',
        decreases i,
    {
        if symbol.get_char(i - 1) == '-' {
            proof {
                symbol@.index_of_last_ensures('-');
                assert(symbol@.contains('-'));
                let k = symbol@.index_of_last('-')->0;
                assert(k == i - 1) by {
                    if k > i - 1 {
                        assert(symbol@[k] != '-');
                    } else if k < i - 1 {
                        assert(symbol@[i - 1] != '-');
                    }
                }
            }
            return symbol.substring_char(i, n).to_owned();
        }
        i = i - 1;
    }
    proof {
        symbol@.index_of_last_ensures('-');
        assert(!symbol@.contains('-'));
    }
    symbol.to_owned()
}

} // verus!
