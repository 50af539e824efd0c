use vstd::prelude::*;
use vstd::string::*;

use crate::error::Error;
use crate::interpretor::{ProgramOutput, ProgramStatus};
use crate::lexer::{chars_of, is_digit};
use crate::market::{Interval, MarketIdentifier};
use crate::text::{lower_of, lowercase, split, split_pieces, trim, trim_of, upper_of, uppercase};

verus! {

/// The value of the decimal digits `s`.
pub open spec fn digits_value(s: Seq<char>) -> int
    decreases s.len(),
{
    if s.len() == 0 {
        0
    } else {
        digits_value(s.drop_last()) * 10 + (s.last() as int - '0' as int)
    }
}

/// The unsigned decimal number `s` (an optional `+`, then digits) if it
/// fits in `u64`.
pub open spec fn decimal_of(s: Seq<char>) -> Option<u64> {
    let body = unsigned_body(s);
    if body.len() > 0 && all_digits(body) && digits_value(body) <= u64::MAX {
        Some(digits_value(body) as u64)
    } else {
        None
    }
}

/// `s` without a leading `+`.
pub open spec fn unsigned_body(s: Seq<char>) -> Seq<char> {
    if s.len() > 0 && s[0] == '+' {
        s.subrange(1, s.len() as int)
    } else {
        s
    }
}

/// Every character of `s` is a decimal digit.
pub open spec fn all_digits(s: Seq<char>) -> bool {
    forall|i: int| 0 <= i < s.len() ==> is_digit(#[trigger] s[i])
}

proof fn lemma_digits_value_nonneg(s: Seq<char>)
    requires
        forall|i: int| 0 <= i < s.len() ==> is_digit(#[trigger] s[i]),
    ensures
        digits_value(s) >= 0,
    decreases s.len(),
{
    if s.len() > 0 {
        lemma_digits_value_nonneg(s.drop_last());
    }
}

/// Reads an unsigned decimal number as `u64`'s `FromStr` does.
pub fn parse_decimal(s: &Vec<char>) -> (r: Option<u64>)
    ensures
        r == decimal_of(s@),
{
    let start: usize = if s.len() > 0 && s[0] == '+' {
        1
    } else {
        0
    };
    let ghost body = unsigned_body(s@);
    if start >= s.len() {
        return None;
    }
    proof {
        assert(body.len() > 0);
    }
    let mut i = start;
    while i < s.len()
        invariant
            start <= i <= s@.len(),
            body == s@.subrange(start as int, s@.len() as int),
            body == unsigned_body(s@),
            forall|k: int| start <= k < i ==> is_digit(#[trigger] s@[k]),
        decreases s@.len() - i,
    {
        if !('0' <= s[i] && s[i] <= '9') {
            proof {
                assert(body[i - start] == s@[i as int]);
                assert(!is_digit(body[i - start]));
                assert(!all_digits(body));
            }
            return None;
        }
        i = i + 1;
    }
    proof {
        assert forall|k: int| 0 <= k < body.len() implies is_digit(#[trigger] body[k]) by {
            assert(body[k] == s@[k + start]);
        }
    }
    let mut acc: u128 = 0;
    let limit: u128 = 18446744073709551615u128;
    let mut j = start;
    while j < s.len()
        invariant
            start <= j <= s@.len(),
            body == s@.subrange(start as int, s@.len() as int),
            body == unsigned_body(s@),
            forall|k: int| 0 <= k < body.len() ==> is_digit(#[trigger] body[k]),
            limit == u64::MAX,
            acc <= limit ==> acc == digits_value(s@.subrange(start as int, j as int)),
            acc > limit ==> acc == limit + 1 && digits_value(s@.subrange(start as int, j as int)) > limit,
        decreases s@.len() - j,
    {
        let ghost prefix = s@.subrange(start as int, j as int);
        let ghost next = s@.subrange(start as int, j + 1);
        proof {
            assert(next.drop_last() =~= prefix);
            assert(next.last() == s@[j as int]);
            assert(is_digit(body[j - start]));
            assert(body[j - start] == s@[j as int]);
            assert forall|k: int| 0 <= k < prefix.len() implies is_digit(#[trigger] prefix[k]) by {
                assert(prefix[k] == body[k]);
            }
            lemma_digits_value_nonneg(prefix);
        }
        let d = (s[j] as u32 - '0' as u32) as u128;
        if acc <= limit {
            acc = acc * 10 + d;
            if acc > limit {
                acc = limit + 1;
            }
        }
        j = j + 1;
    }
    proof {
        assert(s@.subrange(start as int, s@.len() as int) == body);
    }
    if acc <= limit {
        Some(acc as u64)
    } else {
        None
    }
}

/// The sampling period written `s` (`1m`, `5m`, `15m`, `30m`, `1h`, `4h`,
/// `1d`, `7d`, `15d`).
pub open spec fn interval_of_text(s: Seq<char>) -> Option<Interval> {
    if s == "1m"@ {
        Some(Interval::Min1)
    } else if s == "5m"@ {
        Some(Interval::Min5)
    } else if s == "15m"@ {
        Some(Interval::Min15)
    } else if s == "30m"@ {
        Some(Interval::Min30)
    } else if s == "1h"@ {
        Some(Interval::Hour1)
    } else if s == "4h"@ {
        Some(Interval::Hour4)
    } else if s == "1d"@ {
        Some(Interval::Day1)
    } else if s == "7d"@ {
        Some(Interval::Day7)
    } else if s == "15d"@ {
        Some(Interval::Day15)
    } else {
        None
    }
}

/// A sampling period as written on a command line.
#[derive(Debug, Clone)]
pub struct ArgumentInterval {
    pub raw: String,
    pub normalized: Interval,
}

impl ArgumentInterval {
    /// Reads a period written in any case.
    pub fn new(raw: &str) -> (r: Result<ArgumentInterval, Error>)
        ensures
            r is Ok <==> interval_of_text(lower_of(raw@)) is Some,
            r matches Ok(a) ==> a.raw@ == lower_of(raw@) && Some(a.normalized) == interval_of_text(lower_of(raw@)),
            r matches Err(e) ==> e is Parsing && e->Parsing_0@ == lower_of(raw@) && e->Parsing_1 == 0
                && e->Parsing_2 == 0,
    {
        ArgumentInterval::from_lowered(lowercase(raw))
    }

    /// Reads a period already in lower case.
    pub fn from_lowered(raw: String) -> (r: Result<ArgumentInterval, Error>)
        ensures
            r is Ok <==> interval_of_text(raw@) is Some,
            r matches Ok(a) ==> a.raw == raw && Some(a.normalized) == interval_of_text(raw@),
            r matches Err(e) ==> e == Error::Parsing(raw, 0, 0),
    {
        let normalized = if raw == String::from_str("1m") {
            Interval::Min1
        } else if raw == String::from_str("5m") {
            Interval::Min5
        } else if raw == String::from_str("15m") {
            Interval::Min15
        } else if raw == String::from_str("30m") {
            Interval::Min30
        } else if raw == String::from_str("1h") {
            Interval::Hour1
        } else if raw == String::from_str("4h") {
            Interval::Hour4
        } else if raw == String::from_str("1d") {
            Interval::Day1
        } else if raw == String::from_str("7d") {
            Interval::Day7
        } else if raw == String::from_str("15d") {
            Interval::Day15
        } else {
            return Err(Error::Parsing(raw, 0, 0));
        };
        Ok(ArgumentInterval { raw, normalized })
    }

    /// Checks a period argument, with a message for the user where it is wrong.
    pub fn validator(raw: &str) -> (r: Result<(), String>)
        ensures
            r is Ok <==> interval_of_text(lower_of(raw@)) is Some,
    {
        match ArgumentInterval::new(raw) {
            Ok(_) => Ok(()),
            Err(_) => Err(String::from_str(
                "Wrong interval format, expected one of: 1m, 5m, 15m, 30m, 1h, 4h, 1d, 7d, 15d",
            )),
        }
    }
}

/// The number of seconds written `l` (already in lower case): digits with
/// an optional unit `s`, `m`, `h` or `d`; `None` where it is malformed or
/// does not fit in `u64`.
pub open spec fn duration_of(l: Seq<char>) -> Option<u64> {
    let n = l.len();
    let unit: int = if n > 0 && l[n - 1] == 's' {
        1
    } else if n > 0 && l[n - 1] == 'm' {
        60
    } else if n > 0 && l[n - 1] == 'h' {
        3600
    } else if n > 0 && l[n - 1] == 'd' {
        86400
    } else {
        0
    };
    let digits = if unit == 0 {
        l
    } else {
        l.subrange(0, n - 1)
    };
    let factor = if unit == 0 {
        1
    } else {
        unit
    };
    match decimal_of(digits) {
        Some(v) => if v * factor <= u64::MAX {
            Some((v * factor) as u64)
        } else {
            None
        },
        None => None,
    }
}

/// Reads a duration such as `90s`, `5m`, `1h`, `2d` or `30` (seconds), in
/// any case, as a number of seconds.
pub fn human_duration(s: &str) -> (r: Result<u64, Error>)
    ensures
        duration_of(lower_of(s@)) matches Some(v) ==> r == Ok::<u64, Error>(v),
        duration_of(lower_of(s@)) is None ==> r == Err::<u64, Error>(Error::ParseInt),
{
    duration_of_lowered(&lowercase(s))
}

/// Reads a duration already in lower case as a number of seconds.
pub fn duration_of_lowered(l: &String) -> (r: Result<u64, Error>)
    ensures
        duration_of(l@) matches Some(v) ==> r == Ok::<u64, Error>(v),
        duration_of(l@) is None ==> r == Err::<u64, Error>(Error::ParseInt),
{
    let chars = chars_of(l.as_str());
    let n = chars.len();
    let unit: u64 = if n > 0 && chars[n - 1] == 's' {
        1
    } else if n > 0 && chars[n - 1] == 'm' {
        60
    } else if n > 0 && chars[n - 1] == 'h' {
        3600
    } else if n > 0 && chars[n - 1] == 'd' {
        86400
    } else {
        0
    };
    let mut digits: Vec<char> = Vec::new();
    let end = if unit == 0 {
        n
    } else {
        n - 1
    };
    let mut i: usize = 0;
    while i < end
        invariant
            end <= n == chars@.len(),
            i <= end,
            digits@ == chars@.subrange(0, i as int),
        decreases end - i,
    {
        digits.push(chars[i]);
        i = i + 1;
        proof {
            assert(digits@ =~= chars@.subrange(0, i as int));
        }
    }
    proof {
        if unit == 0 {
            assert(digits@ =~= chars@);
        }
    }
    let factor: u64 = if unit == 0 {
        1
    } else {
        unit
    };
    match parse_decimal(&digits) {
        Some(v) => {
            if v as u128 * factor as u128 <= 18446744073709551615u128 {
                Ok(v * factor)
            } else {
                Err(Error::ParseInt)
            }
        },
        None => Err(Error::ParseInt),
    }
}


/// The Unix time that `chrono` reads from the RFC 3339 date `s`, if it is one.
pub uninterp spec fn rfc3339_seconds(s: Seq<char>) -> Option<i64>;

/// Relies on `chrono::DateTime::parse_from_rfc3339`, and on `timestamp` of its
/// result: the Unix time of an RFC 3339 date, `None` where the text is not one.
#[verifier::external_body]
fn rfc3339_timestamp(s: &str) -> (r: Option<i64>)
    ensures
        r == rfc3339_seconds(s@),
{
    match chrono::DateTime::parse_from_rfc3339(s) {
        Ok(date) => Some(date.timestamp()),
        Err(_) => None,
    }
}

/// `s` starts with `NOW-`.
pub open spec fn is_relative(s: Seq<char>) -> bool {
    s.len() >= 4 && s.subrange(0, 4) == seq!['N', 'O', 'W', '-']
}

/// A time given on a command line: a date, or a duration back from the
/// moment the command was read. Times are Unix seconds.
#[derive(Debug, Clone, Copy, PartialEq, Eq, Structural)]
pub enum ArgumentTimestamp {
    Absolute { date: i64 },
    RelativeToNow { delta: u64, crtime: u64 },
}

impl ArgumentTimestamp {
    /// Reads `NOW-<duration>` (relative to `crtime`) or an RFC 3339 date.
    pub fn new(raw: &str, crtime: u64) -> (r: Result<ArgumentTimestamp, Error>)
        ensures
            is_relative(raw@) ==> match duration_of(lower_of(split_pieces(raw@, '-')[1])) {
                Some(d) => r == Ok::<ArgumentTimestamp, Error>(ArgumentTimestamp::RelativeToNow { delta: d, crtime }),
                None => r matches Err(e) && e is Parsing && e->Parsing_0@ == raw@ && e->Parsing_1 == 3
                    && e->Parsing_2 == 0,
            },
            !is_relative(raw@) ==> match rfc3339_seconds(raw@) {
                Some(t) => r == Ok::<ArgumentTimestamp, Error>(ArgumentTimestamp::Absolute { date: t }),
                None => r matches Err(e) && e is Parsing && e->Parsing_0@ == raw@,
            },
    {
        let chars = chars_of(raw);
        if chars.len() >= 4 && chars[0] == 'N' && chars[1] == 'O' && chars[2] == 'W' && chars[3] == '-' {
            proof {
                assert(chars@.subrange(0, 4) =~= seq!['N', 'O', 'W', '-']);
                lemma_split_has_second(raw@);
            }
            let pieces = split(raw, '-');
            match human_duration(pieces[1].as_str()) {
                Ok(delta) => Ok(ArgumentTimestamp::RelativeToNow { delta, crtime }),
                Err(_) => Err(Error::Parsing(String::from_str(raw), 3, 0)),
            }
        } else {
            proof {
                if is_relative(raw@) {
                    assert(raw@.subrange(0, 4)[0] == raw@[0]);
                    assert(raw@.subrange(0, 4)[1] == raw@[1]);
                    assert(raw@.subrange(0, 4)[2] == raw@[2]);
                    assert(raw@.subrange(0, 4)[3] == raw@[3]);
                }
            }
            ArgumentTimestamp::from_parsed(raw, rfc3339_timestamp(raw))
        }
    }

    /// The time written `raw`, given what reading it as an RFC 3339 date gave.
    pub fn from_parsed(raw: &str, parsed: Option<i64>) -> (r: Result<ArgumentTimestamp, Error>)
        ensures
            match parsed {
                Some(t) => r == Ok::<ArgumentTimestamp, Error>(ArgumentTimestamp::Absolute { date: t }),
                None => r matches Err(e) && e is Parsing && e->Parsing_0@ == raw@ && e->Parsing_1 == 3
                    && e->Parsing_2 == 0,
            },
    {
        match parsed {
            Some(date) => Ok(ArgumentTimestamp::Absolute { date }),
            None => Err(Error::Parsing(String::from_str(raw), 3, 0)),
        }
    }

    /// Checks a time argument, with a message for the user where it is wrong.
    pub fn validator(raw: &str) -> (r: Result<(), String>)
        ensures
            !is_relative(raw@) ==> (r is Ok <==> rfc3339_seconds(raw@) is Some),
            is_relative(raw@) ==> (r is Ok <==> duration_of(lower_of(split_pieces(raw@, '-')[1])) is Some),
    {
        match ArgumentTimestamp::new(raw, 0) {
            Ok(_) => Ok(()),
            Err(_) => Err(String::from_str(
                "Wrong time format, format must be one of: rfc3339 `1996-12-19T16:39:57-08:00` or `NOW-<duration>`",
            )),
        }
    }

    /// Whether `timestamp` can be computed: a relative time's parts fit in `i64`.
    pub open spec fn fits(&self) -> bool {
        match self {
            ArgumentTimestamp::Absolute { .. } => true,
            ArgumentTimestamp::RelativeToNow { delta, crtime } => *delta <= i64::MAX && *crtime <= i64::MAX,
        }
    }

    /// Whether `timestamp` can be computed.
    pub fn in_range(&self) -> (r: bool)
        ensures
            r == self.fits(),
    {
        match self {
            ArgumentTimestamp::Absolute { .. } => true,
            ArgumentTimestamp::RelativeToNow { delta, crtime } => *delta <= 9223372036854775807u64 && *crtime <= 9223372036854775807u64,
        }
    }

    /// The Unix time meant.
    pub fn timestamp(&self) -> (r: i64)
        requires
            self.fits(),
        ensures
            r == match self {
                ArgumentTimestamp::Absolute { date } => *date as int,
                ArgumentTimestamp::RelativeToNow { delta, crtime } => *crtime - *delta,
            },
    {
        match self {
            ArgumentTimestamp::Absolute { date } => *date,
            ArgumentTimestamp::RelativeToNow { delta, crtime } => *crtime as i64 - *delta as i64,
        }
    }
}

proof fn lemma_split_has_second(s: Seq<char>)
    requires
        is_relative(s),
    ensures
        split_pieces(s, '-').len() >= 2,
{
    lemma_split_grows(s, 4);
    assert(s.subrange(0, 4)[3] == '-');
    let head = s.subrange(0, 4);
    assert(head.drop_last() =~= s.subrange(0, 3));
    crate::text::lemma_split_len(s.subrange(0, 3), '-');
}

proof fn lemma_split_grows(s: Seq<char>, k: int)
    requires
        0 <= k <= s.len(),
    ensures
        split_pieces(s, '-').len() >= split_pieces(s.subrange(0, k), '-').len(),
    decreases s.len() - k,
{
    if k < s.len() {
        lemma_split_grows(s, k + 1);
        let next = s.subrange(0, k + 1);
        assert(next.drop_last() =~= s.subrange(0, k));
        crate::text::lemma_split_len(s.subrange(0, k), '-');
    } else {
        assert(s.subrange(0, k) =~= s);
    }
}

/// The window `cat` reads: from the given start (else the epoch) to the
/// given end (else now).
pub fn cat_window(from: Option<i64>, to: Option<i64>, now: i64) -> (r: (i64, i64))
    ensures
        r.0 == match from {
            Some(f) => f,
            None => 0,
        },
        r.1 == match to {
            Some(t) => t,
            None => now,
        },
{
    let start = match from {
        Some(f) => f,
        None => 0,
    };
    let end = match to {
        Some(t) => t,
        None => now,
    };
    (start, end)
}

/// What `echo` writes for its messages: each as a text line, then a
/// successful exit.
pub fn echo_outputs(messages: Vec<String>) -> (r: Vec<ProgramOutput>)
    ensures
        r@.len() == messages@.len() + 1,
        forall|i: int| 0 <= i < messages@.len() ==> r@[i] == (ProgramOutput::Text { message: #[trigger] messages@[i] }),
        r@.last() == (ProgramOutput::Exit { message: None, status: ProgramStatus::Success }),
{
    let mut r: Vec<ProgramOutput> = Vec::new();
    let mut rest = messages;
    let ghost all = rest@;
    let total = rest.len();
    let mut i: usize = 0;
    while rest.len() > 0
        invariant
            total == all.len(),
            i <= total,
            rest@ == all.subrange(i as int, all.len() as int),
            r@.len() == i,
            forall|k: int| 0 <= k < i ==> r@[k] == (ProgramOutput::Text { message: #[trigger] all[k] }),
        decreases rest@.len(),
    {
        let m = rest.remove(0);
        proof {
            assert(m == all[i as int]);
            assert(rest@ =~= all.subrange(i + 1, all.len() as int));
        }
        r.push(ProgramOutput::Text { message: m });
        i = i + 1;
    }
    r.push(ProgramOutput::Exit { message: None, status: ProgramStatus::Success });
    r
}

/// Which markets `ls` lists: an exchange name, a base and a quote, each
/// absent when any is accepted.
#[derive(Debug, Clone)]
pub struct MarketFilter {
    pub exchange: Option<String>,
    pub base: Option<String>,
    pub quote: Option<String>,
}

/// A base or quote filter read from `piece`: trimmed and upper-cased; empty
/// or `*` accepts any.
pub open spec fn pair_filter(piece: Seq<char>) -> Option<Seq<char>> {
    normalized_pair_filter(upper_of(trim_of(piece)))
}

/// A base or quote filter from an already trimmed, upper-cased piece `v`.
pub open spec fn normalized_pair_filter(v: Seq<char>) -> Option<Seq<char>> {
    if v.len() == 0 || v == "*"@ {
        None
    } else {
        Some(v)
    }
}

impl MarketFilter {
    /// Reads `exchange[/base[/quote]]`; no argument accepts every market.
    pub fn parse(arg: Option<&str>) -> (r: MarketFilter)
        ensures
            ({
                let p = split_pieces(match arg { Some(a) => a@, None => Seq::<char>::empty() }, '/');
                &&& (p[0].len() == 0 ==> r.exchange is None)
                &&& (p[0].len() > 0 ==> (r.exchange is Some && r.exchange->Some_0@ == p[0]))
                &&& (p.len() < 2 ==> r.base is None)
                &&& (p.len() >= 2 && p[1].len() == 0 ==> r.base is None)
                &&& (p.len() >= 3 && p[2].len() == 0 ==> r.quote is None)
                &&& (p.len() >= 2 ==> match pair_filter(p[1]) {
                    Some(v) => r.base is Some && r.base->Some_0@ == v,
                    None => r.base is None,
                })
                &&& (p.len() < 3 ==> r.quote is None)
                &&& (p.len() >= 3 ==> match pair_filter(p[2]) {
                    Some(v) => r.quote is Some && r.quote->Some_0@ == v,
                    None => r.quote is None,
                })
            }),
    {
        let text: &str = match arg {
            Some(a) => a,
            None => "",
        };
        proof {
            if arg is None {
                reveal_strlit("");
            }
            crate::text::lemma_split_len(text@, '/');
        }
        let pieces = split(text, '/');
        let exchange = if pieces[0].as_str().unicode_len() > 0 {
            Some(pieces[0].clone())
        } else {
            None
        };
        let base = if pieces.len() >= 2 {
            MarketFilter::pair(pieces[1].as_str())
        } else {
            None
        };
        let quote = if pieces.len() >= 3 {
            MarketFilter::pair(pieces[2].as_str())
        } else {
            None
        };
        MarketFilter { exchange, base, quote }
    }

    fn pair(piece: &str) -> (r: Option<String>)
        ensures
            match pair_filter(piece@) {
                Some(v) => r matches Some(b) && b@ == v,
                None => r is None,
            },
            piece@.len() == 0 ==> r is None,
    {
        MarketFilter::pair_from_normalized(uppercase(trim(piece)))
    }

    /// The base or quote filter for an already trimmed, upper-cased piece.
    pub fn pair_from_normalized(v: String) -> (r: Option<String>)
        ensures
            match normalized_pair_filter(v@) {
                Some(x) => r matches Some(b) && b@ == x,
                None => r is None,
            },
    {
        let star = String::from_str("*");
        if v.as_str().unicode_len() == 0 || v == star {
            None
        } else {
            Some(v)
        }
    }

    /// The markets of exchange `exchange_name` that the filter accepts, in order.
    pub fn select(&self, exchange_name: &str, markets: &Vec<MarketIdentifier>) -> (r: Vec<MarketIdentifier>)
        ensures
            (self.exchange matches Some(e) && e@ != exchange_name@) ==> r@.len() == 0,
            !(self.exchange matches Some(e) && e@ != exchange_name@) ==> r@ == markets@.filter(
                |m: MarketIdentifier| self.accepts_pair(m),
            ),
    {
        let mut r: Vec<MarketIdentifier> = Vec::new();
        match &self.exchange {
            Some(e) => {
                let name = String::from_str(exchange_name);
                if !(*e == name) {
                    return r;
                }
            },
            None => {},
        }
        let ghost f = |m: MarketIdentifier| self.accepts_pair(m);
        let mut i: usize = 0;
        while i < markets.len()
            invariant
                i <= markets@.len(),
                f == (|m: MarketIdentifier| self.accepts_pair(m)),
                r@ == markets@.subrange(0, i as int).filter(f),
            decreases markets@.len() - i,
        {
            proof {
                let next = markets@.subrange(0, i + 1);
                assert(next.drop_last() =~= markets@.subrange(0, i as int));
                reveal(Seq::filter);
            }
            if self.pair_accepts(&markets[i]) {
                r.push(markets[i].duplicate());
            }
            i = i + 1;
        }
        proof {
            assert(markets@.subrange(0, markets@.len() as int) =~= markets@);
        }
        r
    }

    /// The base and quote of `m` pass the filter.
    pub open spec fn accepts_pair(&self, m: MarketIdentifier) -> bool {
        &&& (self.base matches Some(b) ==> b@ == m.base@)
        &&& (self.quote matches Some(q) ==> q@ == m.quote@)
    }

    fn pair_accepts(&self, m: &MarketIdentifier) -> (r: bool)
        ensures
            r == self.accepts_pair(*m),
    {
        let base_ok = match &self.base {
            Some(b) => *b == m.base,
            None => true,
        };
        let quote_ok = match &self.quote {
            Some(q) => *q == m.quote,
            None => true,
        };
        base_ok && quote_ok
    }
}

/// The listing `ls` writes for `markets`: `exchange/base/quote` each, in order.
pub fn ls_listing(markets: &Vec<MarketIdentifier>) -> (r: Vec<String>)
    ensures
        r@.len() == markets@.len(),
        forall|i: int| 0 <= i < markets@.len() ==> (#[trigger] r@[i])@ == markets@[i].path_view(),
{
    let mut r: Vec<String> = Vec::new();
    let mut i: usize = 0;
    while i < markets.len()
        invariant
            i <= markets@.len(),
            r@.len() == i,
            forall|k: int| 0 <= k < i ==> (#[trigger] r@[k])@ == markets@[k].path_view(),
        decreases markets@.len() - i,
    {
        r.push(markets[i].path());
        i = i + 1;
    }
    r
}

} // verus!
