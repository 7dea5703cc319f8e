use vstd::prelude::*;

use crate::text::{
    cents_text, chars_of, copy_range, parse_int, parse_int_chars, push_cents, trim,
    trim_chars, utf8_len, utf8_longer_than,
};

verus! {

pub type OrderId = u64;

pub type Quantity = u64;

/// The side of an order: a bid to buy or an offer to sell.
#[derive(Debug, Clone, Copy, PartialEq, Eq, Hash, Structural)]
pub enum Side {
    Buy,
    Sell,
}

/// What `str::to_lowercase` makes of a string (Unicode's lowercase mapping).
pub uninterp spec fn lowercase(s: Seq<char>) -> Seq<char>;

/// `str::to_lowercase`: the string with every character mapped to lowercase.
#[verifier::external_body]
fn to_lowercase(s: &str) -> (r: String)
    ensures
        r@ == lowercase(s@),
{
    s.to_lowercase()
}

impl Side {
    /// The side a lowercase word names: "buy", "bid" or "b" for buying, "sell",
    /// "ask" or "s" for selling.
    pub open spec fn named(word: Seq<char>) -> Option<Side> {
        if word == "buy"@ || word == "bid"@ || word == "b"@ {
            Some(Side::Buy)
        } else if word == "sell"@ || word == "ask"@ || word == "s"@ {
            Some(Side::Sell)
        } else {
            None
        }
    }

    /// The side named by a word already in lowercase; an error that quotes the word
    /// otherwise.
    pub fn from_lowercase(lowered: &str) -> (res: Result<Side, String>)
        ensures
            Self::named(lowered@) matches Some(side) ==> res == Ok::<Side, String>(side),
            Self::named(lowered@) is None ==> (res matches Err(e) && e@ == "unknown side '"@
                + lowered@ + "', expected buy or sell"@),
    {
        let word = String::from_str(lowered);
        if word == String::from_str("buy") || word == String::from_str("bid") || word
            == String::from_str("b") {
            Ok(Side::Buy)
        } else if word == String::from_str("sell") || word == String::from_str("ask") || word
            == String::from_str("s") {
            Ok(Side::Sell)
        } else {
            let mut message = String::from_str("unknown side '");
            message.append(lowered);
            message.append("', expected buy or sell");
            Err(message)
        }
    }

    /// "BUY" or "SELL".
    pub fn to_string(&self) -> (s: String)
        ensures
            s@ == (match self {
                Side::Buy => "BUY"@,
                Side::Sell => "SELL"@,
            }),
    {
        match self {
            Side::Buy => String::from_str("BUY"),
            Side::Sell => String::from_str("SELL"),
        }
    }
}

impl std::str::FromStr for Side {
    type Err = String;

    /// Reads a side whatever its case: "buy", "bid" or "b", "sell", "ask" or "s".
    fn from_str(input: &str) -> (res: Result<Self, Self::Err>)
        ensures
            Side::named(lowercase(input@)) matches Some(side) ==> res == Ok::<Side, String>(side),
            Side::named(lowercase(input@)) is None ==> (res matches Err(e) && e@
                == "unknown side '"@ + lowercase(input@) + "', expected buy or sell"@),
    {
        let lowered = to_lowercase(input);
        Side::from_lowercase(lowered.as_str())
    }
}

/// The message for a price too large to hold in cents.
fn out_of_range_message() -> (m: String)
    ensures
        m@ == "price is out of range"@,
{
    String::from_str("price is out of range")
}

impl std::str::FromStr for Price {
    type Err = String;

    /// Reads a price as `Price::parse` does. An input whose cents would leave the
    /// `i64` range is refused with "price is out of range" before it is read.
    fn from_str(input: &str) -> (res: Result<Self, Self::Err>)
        ensures
            price_overflows(input@) ==> (res matches Err(e) && e@ == "price is out of range"@),
            !price_overflows(input@) ==> (parsed_price(input@) matches Ok(c) ==> (res matches Ok(
                p,
            ) && p.view_cents() == c)),
            !price_overflows(input@) ==> (parsed_price(input@) matches Err(m) ==> (res matches Err(
                e,
            ) && e@ == m)),
    {
        if Price::parse_overflows(input) {
            return Err(out_of_range_message());
        }
        Price::parse(input)
    }
}

/// Where the first '.' stands, or the length when there is none.
pub open spec fn first_dot(s: Seq<char>) -> int
    decreases s.len(),
{
    if s.len() == 0 {
        0
    } else if s[0] == '.' {
        0
    } else {
        1 + first_dot(s.drop_first())
    }
}

/// How many '.' there are.
pub open spec fn dot_count(s: Seq<char>) -> nat
    decreases s.len(),
{
    if s.len() == 0 {
        0
    } else {
        dot_count(s.drop_last()) + if s.last() == '.' {
            1nat
        } else {
            0nat
        }
    }
}

/// Decimals filled up with zeros to two places, as `format!("{:0<2}")` does.
pub open spec fn pad_decimals(f: Seq<char>) -> Seq<char> {
    if f.len() < 2 {
        f + Seq::new((2 - f.len()) as nat, |i: int| '0')
    } else {
        f
    }
}

/// The error that quotes a price that cannot be read.
pub open spec fn invalid_price(input: Seq<char>) -> Seq<char> {
    "invalid price '"@ + input + "'"@
}

/// Reading a price up to its arithmetic: the whole units and the decimals in cents,
/// or the error. The text is trimmed; it may not be empty nor start with '-', holds at
/// most one '.', whole units and at most two bytes of decimals, each read as an
/// `i64` is read.
pub open spec fn price_parts(input: Seq<char>) -> Result<(int, int), Seq<char>> {
    let t = trim(input);
    if t.len() == 0 {
        Err("price cannot be empty"@)
    } else if t[0] == '-' {
        Err("price must be positive"@)
    } else if dot_count(t) > 1 {
        Err(invalid_price(input))
    } else {
        let k = first_dot(t);
        match parse_int(t.take(k)) {
            None => Err(invalid_price(input)),
            Some(whole) => if k == t.len() {
                Ok((whole, 0))
            } else {
                let f = t.skip(k + 1);
                if utf8_len(f) > 2 {
                    Err("prices support at most two decimals"@)
                } else {
                    match parse_int(pad_decimals(f)) {
                        None => Err(invalid_price(input)),
                        Some(fraction) => Ok((whole, fraction)),
                    }
                }
            },
        }
    }
}

/// Whether `whole * 100 + fraction` leaves the `i64` range on the way.
pub open spec fn price_overflows(input: Seq<char>) -> bool {
    match price_parts(input) {
        Ok((w, f)) => w * 100 > i64::MAX || w * 100 < i64::MIN || w * 100 + f > i64::MAX || w
            * 100 + f < i64::MIN,
        Err(_) => false,
    }
}

/// The price a text stands for, in cents, or the error reading it gives.
pub open spec fn parsed_price(input: Seq<char>) -> Result<int, Seq<char>> {
    match price_parts(input) {
        Ok((w, f)) => if w * 100 + f > 0 {
            Ok(w * 100 + f)
        } else {
            Err("price must be positive"@)
        },
        Err(e) => Err(e),
    }
}

pub proof fn lemma_first_dot(s: Seq<char>)
    ensures
        0 <= first_dot(s) <= s.len(),
        first_dot(s) < s.len() ==> s[first_dot(s)] == '.',
        forall|j: int| 0 <= j < first_dot(s) ==> s[j] != '.',
    decreases s.len(),
{
    if s.len() > 0 && s[0] != '.' {
        let t = s.drop_first();
        lemma_first_dot(t);
        assert forall|j: int| 0 <= j < first_dot(s) implies s[j] != '.' by {
            if j > 0 {
                assert(s[j] == t[j - 1]);
            }
        }
    }
}

/// Price represented in cents/ticks to avoid floating-point comparison issues.
/// Example: 100.50 is stored as 10050. A price is always positive.
#[derive(Debug, Clone, Copy, PartialEq, Eq, PartialOrd, Ord, Hash, Structural)]
pub struct Price(i64);

impl Price {
    #[verifier::type_invariant]
    spec fn positive(self) -> bool {
        self.0 > 0
    }

    /// The number of cents this price stands for.
    pub closed spec fn view_cents(self) -> int {
        self.0 as int
    }

    pub fn from_cents(cents: i64) -> (res: Result<Self, String>)
        ensures
            cents > 0 ==> (res matches Ok(p) && p.view_cents() == cents),
            cents <= 0 ==> (res matches Err(e) && e@ == "price must be positive"@),
    {
        if cents <= 0 {
            return Err(String::from_str("price must be positive"));
        }
        Ok(Self(cents))
    }

    /// Reads a price with at most two decimals, "100.5" as 10050 cents.
    pub fn parse(input: &str) -> (res: Result<Self, String>)
        requires
            !price_overflows(input@),
        ensures
            parsed_price(input@) matches Ok(c) ==> (res matches Ok(p) && p.view_cents() == c),
            parsed_price(input@) matches Err(m) ==> (res matches Err(e) && e@ == m),
    {
        let (whole, fractional) = match Self::parse_parts(input) {
            Ok(parts) => parts,
            Err(e) => return Err(e),
        };
        let cents = (whole as i128) * 100 + (fractional as i128);
        if cents <= 0 {
            return Err(String::from_str("price must be positive"));
        }
        Price::from_cents(cents as i64)
    }

    /// Whether reading `input` as a price would leave the `i64` range while scaling
    /// its whole units to cents.
    pub fn parse_overflows(input: &str) -> (b: bool)
        ensures
            b == price_overflows(input@),
    {
        match Self::parse_parts(input) {
            Ok((whole, fractional)) => {
                let scaled = (whole as i128) * 100;
                let cents = scaled + (fractional as i128);
                scaled > 0x7fff_ffff_ffff_ffff || scaled < -0x8000_0000_0000_0000 || cents
                    > 0x7fff_ffff_ffff_ffff || cents < -0x8000_0000_0000_0000
            },
            Err(_) => false,
        }
    }

    fn parse_parts(input: &str) -> (res: Result<(i64, i64), String>)
        ensures
            price_parts(input@) matches Ok((w, f)) ==> res == Ok::<(i64, i64), String>(
                (w as i64, f as i64),
            ) && i64::MIN <= w <= i64::MAX && i64::MIN <= f <= i64::MAX,
            price_parts(input@) matches Err(m) ==> (res matches Err(e) && e@ == m),
    {
        let chars = chars_of(input);
        let trimmed = trim_chars(&chars);
        let ghost t = trimmed@;
        let n = trimmed.len();
        if n == 0 {
            return Err(String::from_str("price cannot be empty"));
        }
        if trimmed[0] == '-' {
            return Err(String::from_str("price must be positive"));
        }
        let mut dots: usize = 0;
        let mut first: usize = n;
        let mut i: usize = 0;
        while i < n
            invariant
                0 <= i <= n,
                n == t.len(),
                trimmed@ == t,
                dots <= i,
                dots == dot_count(t.take(i as int)),
                dots == 0 ==> first == n && forall|j: int| 0 <= j < i ==> t[j] != '.',
                dots > 0 ==> first < i && t[first as int] == '.' && forall|j: int|
                    0 <= j < first ==> t[j] != '.',
            decreases n - i,
        {
            assert(t.take(i + 1).drop_last() =~= t.take(i as int));
            if trimmed[i] == '.' {
                if dots == 0 {
                    first = i;
                }
                dots = dots + 1;
            }
            i = i + 1;
        }
        proof {
            assert(t.take(n as int) =~= t);
            lemma_first_dot(t);
            if first_dot(t) < first {
                assert(t[first_dot(t)] == '.');
            }
            if first < first_dot(t) {
                assert(t[first as int] != '.');
            }
        }
        if dots > 1 {
            return Err(Self::invalid_price_message(input));
        }
        let whole_text = copy_range(&trimmed, 0, first);
        let whole = match parse_int_chars(&whole_text) {
            Some(v) => v,
            None => return Err(Self::invalid_price_message(input)),
        };
        if first == n {
            return Ok((whole, 0));
        }
        let mut fraction = copy_range(&trimmed, first + 1, n);
        assert(fraction@ =~= t.skip(first + 1));
        if utf8_longer_than(&fraction, 2) {
            return Err(String::from_str("prices support at most two decimals"));
        }
        let ghost f = fraction@;
        while fraction.len() < 2
            invariant
                f.len() <= 2 ==> fraction@ == f + Seq::new((fraction@.len() - f.len()) as nat, |i: int| '0'),
                f.len() <= fraction@.len() <= 2 || fraction@ == f,
            decreases 2 - fraction@.len(),
        {
            push_zero(&mut fraction);
            assert(fraction@ =~= f + Seq::new((fraction@.len() - f.len()) as nat, |i: int| '0'));
        }
        assert(fraction@ =~= pad_decimals(f));
        match parse_int_chars(&fraction) {
            Some(v) => Ok((whole, v)),
            None => Err(Self::invalid_price_message(input)),
        }
    }

    fn invalid_price_message(input: &str) -> (m: String)
        ensures
            m@ == invalid_price(input@),
    {
        let mut message = String::from_str("invalid price '");
        message.append(input);
        message.append("'");
        message
    }

    /// The price written with two decimals, as in "100.50".
    pub fn to_string(&self) -> (s: String)
        ensures
            s@ == cents_text(self.view_cents() as nat),
    {
        let c = self.cents();
        let mut s = String::new();
        push_cents(&mut s, c as u128);
        s
    }

    pub fn cents(self) -> (c: i64)
        ensures
            c == self.view_cents(),
            c > 0,
    {
        proof {
            use_type_invariant(&self);
        }
        self.0
    }
}

/// The price that stands for `c` cents, for a `c` that an `i64` holds.
pub closed spec fn price_of_cents(c: int) -> Price {
    Price(c as i64)
}

/// A price is the price of its cents, and the price of a positive number of cents
/// stands for that number.
pub proof fn lemma_price_of_cents(p: Price, c: int)
    requires
        0 < c <= i64::MAX,
    ensures
        price_of_cents(c).view_cents() == c,
        p == price_of_cents(p.view_cents()),
{
}

/// Two prices are the same price exactly when they stand for the same number of
/// cents.
pub proof fn lemma_price_cents_injective(a: Price, b: Price)
    ensures
        (a.view_cents() == b.view_cents()) == (a == b),
{
}

fn push_zero(v: &mut Vec<char>)
    ensures
        final(v)@ == old(v)@.push('0'),
{
    v.push('0');
}

} // verus!
