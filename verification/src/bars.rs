//! Bar records and timeframes. A bar is one OHLCV record at a Unix
//! timestamp; its prices and volume are carried as IEEE-754 bit patterns so
//! that persistence round-trips them exactly. The timeframe enumeration maps
//! each supported bar size to its fixed on-disk file name.

use vstd::prelude::*;
use crate::DataError;
use crate::keys::{StoreKey, StorePoint};

verus! {

/// One OHLCV bar. The price and volume fields hold the bit pattern of the
/// corresponding 64-bit floating-point value; the caller converts at the
/// boundary.
#[derive(Clone, Copy, Debug, PartialEq, Eq, Structural)]
pub struct IBApiBar {
    pub date: i64,
    pub open: u64,
    pub high: u64,
    pub low: u64,
    pub close: u64,
    pub volume: u64,
    pub count: i32,
    pub wap: u64,
}

impl IBApiBar {
    /// Builds a bar from its timestamp, the bit patterns of its prices and
    /// volume, and its trade count.
    pub fn new(
        date: i64,
        open: u64,
        high: u64,
        low: u64,
        close: u64,
        volume: u64,
        count: i32,
        wap: u64,
    ) -> (r: Self)
        ensures
            r == (IBApiBar { date, open, high, low, close, volume, count, wap }),
    {
        IBApiBar { date, open, high, low, close, volume, count, wap }
    }

    pub fn date(&self) -> (r: i64)
        ensures
            r == self.date,
    {
        self.date
    }

    pub fn open(&self) -> (r: u64)
        ensures
            r == self.open,
    {
        self.open
    }

    pub fn high(&self) -> (r: u64)
        ensures
            r == self.high,
    {
        self.high
    }

    pub fn low(&self) -> (r: u64)
        ensures
            r == self.low,
    {
        self.low
    }

    pub fn close(&self) -> (r: u64)
        ensures
            r == self.close,
    {
        self.close
    }

    pub fn volume(&self) -> (r: u64)
        ensures
            r == self.volume,
    {
        self.volume
    }

    pub fn count(&self) -> (r: i32)
        ensures
            r == self.count,
    {
        self.count
    }

    pub fn wap(&self) -> (r: u64)
        ensures
            r == self.wap,
    {
        self.wap
    }
}

/// A bar sits at the key position of its timestamp.
impl StorePoint<i64> for IBApiBar {
    open spec fn key_spec(self) -> i64 {
        self.date
    }

    fn key(&self) -> (k: i64) {
        self.date
    }

    fn dup(&self) -> (r: Self) {
        *self
    }
}

/// The supported bar sizes.
#[derive(Clone, Copy, Debug, PartialEq, Eq, Hash, Structural)]
pub enum HashedBarSize {
    Sec,
    Sec5,
    Sec15,
    Sec30,
    Min,
    Min2,
    Min3,
    Min5,
    Min15,
    Min20,
    Min30,
    Hour,
    Hour2,
    Hour3,
    Hour4,
    Hour8,
    Day,
    Week,
    Month,
}

impl HashedBarSize {
    /// The fixed file name under which data of this bar size is persisted.
    pub open spec fn location_spec(self) -> Seq<char> {
        match self {
            HashedBarSize::Sec => "sec.json"@,
            HashedBarSize::Sec5 => "sec5.json"@,
            HashedBarSize::Sec15 => "sec15.json"@,
            HashedBarSize::Sec30 => "sec30.json"@,
            HashedBarSize::Min => "min.json"@,
            HashedBarSize::Min2 => "min2.json"@,
            HashedBarSize::Min3 => "min3.json"@,
            HashedBarSize::Min5 => "min5.json"@,
            HashedBarSize::Min15 => "min15.json"@,
            HashedBarSize::Min20 => "min20.json"@,
            HashedBarSize::Min30 => "min30.json"@,
            HashedBarSize::Hour => "hour.json"@,
            HashedBarSize::Hour2 => "hour2.json"@,
            HashedBarSize::Hour3 => "hour3.json"@,
            HashedBarSize::Hour4 => "hour4.json"@,
            HashedBarSize::Hour8 => "hour8.json"@,
            HashedBarSize::Day => "day.json"@,
            HashedBarSize::Week => "week.json"@,
            HashedBarSize::Month => "month.json"@,
        }
    }

    /// The file name this bar size is persisted under.
    pub fn to_location(&self) -> (r: String)
        ensures
            r@ == self.location_spec(),
    {
        match self {
            HashedBarSize::Sec => "sec.json".to_owned(),
            HashedBarSize::Sec5 => "sec5.json".to_owned(),
            HashedBarSize::Sec15 => "sec15.json".to_owned(),
            HashedBarSize::Sec30 => "sec30.json".to_owned(),
            HashedBarSize::Min => "min.json".to_owned(),
            HashedBarSize::Min2 => "min2.json".to_owned(),
            HashedBarSize::Min3 => "min3.json".to_owned(),
            HashedBarSize::Min5 => "min5.json".to_owned(),
            HashedBarSize::Min15 => "min15.json".to_owned(),
            HashedBarSize::Min20 => "min20.json".to_owned(),
            HashedBarSize::Min30 => "min30.json".to_owned(),
            HashedBarSize::Hour => "hour.json".to_owned(),
            HashedBarSize::Hour2 => "hour2.json".to_owned(),
            HashedBarSize::Hour3 => "hour3.json".to_owned(),
            HashedBarSize::Hour4 => "hour4.json".to_owned(),
            HashedBarSize::Hour8 => "hour8.json".to_owned(),
            HashedBarSize::Day => "day.json".to_owned(),
            HashedBarSize::Week => "week.json".to_owned(),
            HashedBarSize::Month => "month.json".to_owned(),
        }
    }

    /// Recognizes a persisted file name: `Ok` with the bar size whose file
    /// name it is, `Err(Parse)` when it is no bar size's file name.
    pub fn from_filename(filename: &String) -> (r: Result<Self, DataError>)
        ensures
            r matches Ok(tf) ==> tf.location_spec() == filename@,
            r matches Err(e) ==> e == DataError::Parse && forall|tf: HashedBarSize|
                (#[trigger] tf.location_spec()) != filename@,
    {
        if filename.eq(&"sec.json".to_owned()) {
            Ok(HashedBarSize::Sec)
        } else if filename.eq(&"sec5.json".to_owned()) {
            Ok(HashedBarSize::Sec5)
        } else if filename.eq(&"sec15.json".to_owned()) {
            Ok(HashedBarSize::Sec15)
        } else if filename.eq(&"sec30.json".to_owned()) {
            Ok(HashedBarSize::Sec30)
        } else if filename.eq(&"min.json".to_owned()) {
            Ok(HashedBarSize::Min)
        } else if filename.eq(&"min2.json".to_owned()) {
            Ok(HashedBarSize::Min2)
        } else if filename.eq(&"min3.json".to_owned()) {
            Ok(HashedBarSize::Min3)
        } else if filename.eq(&"min5.json".to_owned()) {
            Ok(HashedBarSize::Min5)
        } else if filename.eq(&"min15.json".to_owned()) {
            Ok(HashedBarSize::Min15)
        } else if filename.eq(&"min20.json".to_owned()) {
            Ok(HashedBarSize::Min20)
        } else if filename.eq(&"min30.json".to_owned()) {
            Ok(HashedBarSize::Min30)
        } else if filename.eq(&"hour.json".to_owned()) {
            Ok(HashedBarSize::Hour)
        } else if filename.eq(&"hour2.json".to_owned()) {
            Ok(HashedBarSize::Hour2)
        } else if filename.eq(&"hour3.json".to_owned()) {
            Ok(HashedBarSize::Hour3)
        } else if filename.eq(&"hour4.json".to_owned()) {
            Ok(HashedBarSize::Hour4)
        } else if filename.eq(&"hour8.json".to_owned()) {
            Ok(HashedBarSize::Hour8)
        } else if filename.eq(&"day.json".to_owned()) {
            Ok(HashedBarSize::Day)
        } else if filename.eq(&"week.json".to_owned()) {
            Ok(HashedBarSize::Week)
        } else if filename.eq(&"month.json".to_owned()) {
            Ok(HashedBarSize::Month)
        } else {
            proof {
                assert forall|tf: HashedBarSize| (#[trigger] tf.location_spec()) != filename@ by {
                }
            }
            Err(DataError::Parse)
        }
    }
}

/// Recovers the bar size from a file name, at the specification level.
pub open spec fn location_decode(s: Seq<char>) -> Option<HashedBarSize> {
    if s == "sec.json"@ {
        Some(HashedBarSize::Sec)
    } else if s == "sec5.json"@ {
        Some(HashedBarSize::Sec5)
    } else if s == "sec15.json"@ {
        Some(HashedBarSize::Sec15)
    } else if s == "sec30.json"@ {
        Some(HashedBarSize::Sec30)
    } else if s == "min.json"@ {
        Some(HashedBarSize::Min)
    } else if s == "min2.json"@ {
        Some(HashedBarSize::Min2)
    } else if s == "min3.json"@ {
        Some(HashedBarSize::Min3)
    } else if s == "min5.json"@ {
        Some(HashedBarSize::Min5)
    } else if s == "min15.json"@ {
        Some(HashedBarSize::Min15)
    } else if s == "min20.json"@ {
        Some(HashedBarSize::Min20)
    } else if s == "min30.json"@ {
        Some(HashedBarSize::Min30)
    } else if s == "hour.json"@ {
        Some(HashedBarSize::Hour)
    } else if s == "hour2.json"@ {
        Some(HashedBarSize::Hour2)
    } else if s == "hour3.json"@ {
        Some(HashedBarSize::Hour3)
    } else if s == "hour4.json"@ {
        Some(HashedBarSize::Hour4)
    } else if s == "hour8.json"@ {
        Some(HashedBarSize::Hour8)
    } else if s == "day.json"@ {
        Some(HashedBarSize::Day)
    } else if s == "week.json"@ {
        Some(HashedBarSize::Week)
    } else if s == "month.json"@ {
        Some(HashedBarSize::Month)
    } else {
        None
    }
}

/// The file name of a bar size decodes back to it, so no two bar sizes
/// share a file name.
#[verifier::rlimit(100)]
pub proof fn lemma_location_injective()
    ensures
        forall|a: HashedBarSize| #[trigger] location_decode(a.location_spec()) == Some(a),
        forall|a: HashedBarSize, b: HashedBarSize| #[trigger] a.location_spec() == #[trigger]
            b.location_spec() ==> a == b,
{
    reveal_strlit("sec.json");
    reveal_strlit("sec5.json");
    reveal_strlit("sec15.json");
    reveal_strlit("sec30.json");
    reveal_strlit("min.json");
    reveal_strlit("min2.json");
    reveal_strlit("min3.json");
    reveal_strlit("min5.json");
    reveal_strlit("min15.json");
    reveal_strlit("min20.json");
    reveal_strlit("min30.json");
    reveal_strlit("hour.json");
    reveal_strlit("hour2.json");
    reveal_strlit("hour3.json");
    reveal_strlit("hour4.json");
    reveal_strlit("hour8.json");
    reveal_strlit("day.json");
    reveal_strlit("week.json");
    reveal_strlit("month.json");
    assert("sec.json"@.len() == 8 && "sec.json"@[0] == 's');
    assert("min.json"@.len() == 8 && "min.json"@[0] == 'm');
    assert("day.json"@.len() == 8 && "day.json"@[0] == 'd');
    assert("sec5.json"@.len() == 9 && "sec5.json"@[0] == 's' && "sec5.json"@[3] == '5');
    assert("min2.json"@.len() == 9 && "min2.json"@[0] == 'm' && "min2.json"@[3] == '2');
    assert("min3.json"@.len() == 9 && "min3.json"@[0] == 'm' && "min3.json"@[3] == '3');
    assert("min5.json"@.len() == 9 && "min5.json"@[0] == 'm' && "min5.json"@[3] == '5');
    assert("hour.json"@.len() == 9 && "hour.json"@[0] == 'h');
    assert("week.json"@.len() == 9 && "week.json"@[0] == 'w');
    assert("sec15.json"@.len() == 10 && "sec15.json"@[0] == 's' && "sec15.json"@[1] == 'e'
        && "sec15.json"@[3] == '1' && "sec15.json"@[4] == '5');
    assert("sec30.json"@.len() == 10 && "sec30.json"@[0] == 's' && "sec30.json"@[1] == 'e'
        && "sec30.json"@[3] == '3' && "sec30.json"@[4] == '0');
    assert("min15.json"@.len() == 10 && "min15.json"@[0] == 'm' && "min15.json"@[1] == 'i'
        && "min15.json"@[3] == '1' && "min15.json"@[4] == '5');
    assert("min20.json"@.len() == 10 && "min20.json"@[0] == 'm' && "min20.json"@[1] == 'i'
        && "min20.json"@[3] == '2' && "min20.json"@[4] == '0');
    assert("min30.json"@.len() == 10 && "min30.json"@[0] == 'm' && "min30.json"@[1] == 'i'
        && "min30.json"@[3] == '3' && "min30.json"@[4] == '0');
    assert("hour2.json"@.len() == 10 && "hour2.json"@[0] == 'h' && "hour2.json"@[1] == 'o'
        && "hour2.json"@[3] == 'r' && "hour2.json"@[4] == '2');
    assert("hour3.json"@.len() == 10 && "hour3.json"@[0] == 'h' && "hour3.json"@[1] == 'o'
        && "hour3.json"@[3] == 'r' && "hour3.json"@[4] == '3');
    assert("hour4.json"@.len() == 10 && "hour4.json"@[0] == 'h' && "hour4.json"@[1] == 'o'
        && "hour4.json"@[3] == 'r' && "hour4.json"@[4] == '4');
    assert("hour8.json"@.len() == 10 && "hour8.json"@[0] == 'h' && "hour8.json"@[1] == 'o'
        && "hour8.json"@[3] == 'r' && "hour8.json"@[4] == '8');
    assert("month.json"@.len() == 10 && "month.json"@[0] == 'm' && "month.json"@[1] == 'o'
        && "month.json"@[3] == 't' && "month.json"@[4] == 'h');
    assert forall|a: HashedBarSize| #[trigger] location_decode(a.location_spec()) == Some(a) by {
        if a is Sec {
            assert(location_decode(a.location_spec()) == Some(a));
        } else if a is Sec5 {
            assert(location_decode(a.location_spec()) == Some(a));
        } else if a is Sec15 {
            assert(location_decode(a.location_spec()) == Some(a));
        } else if a is Sec30 {
            assert(location_decode(a.location_spec()) == Some(a));
        } else if a is Min {
            assert(location_decode(a.location_spec()) == Some(a));
        } else if a is Min2 {
            assert(location_decode(a.location_spec()) == Some(a));
        } else if a is Min3 {
            assert(location_decode(a.location_spec()) == Some(a));
        } else if a is Min5 {
            assert(location_decode(a.location_spec()) == Some(a));
        } else if a is Min15 {
            assert(location_decode(a.location_spec()) == Some(a));
        } else if a is Min20 {
            assert(location_decode(a.location_spec()) == Some(a));
        } else if a is Min30 {
            assert(location_decode(a.location_spec()) == Some(a));
        } else if a is Hour {
            assert(location_decode(a.location_spec()) == Some(a));
        } else if a is Hour2 {
            assert(location_decode(a.location_spec()) == Some(a));
        } else if a is Hour3 {
            assert(location_decode(a.location_spec()) == Some(a));
        } else if a is Hour4 {
            assert(location_decode(a.location_spec()) == Some(a));
        } else if a is Hour8 {
            assert(location_decode(a.location_spec()) == Some(a));
        } else if a is Day {
            assert(location_decode(a.location_spec()) == Some(a));
        } else if a is Week {
            assert(location_decode(a.location_spec()) == Some(a));
        } else {
            assert(a is Month);
            assert(location_decode(a.location_spec()) == Some(a));
        }
    }
}

/// Truncated integer division by a positive divisor, as the machine
/// performs it on signed operands.
pub open spec fn div_trunc(a: int, b: int) -> int
    recommends
        b > 0,
{
    if a >= 0 {
        a / b
    } else {
        -((-a) / b)
    }
}

/// A remote-fetch duration: an amount in one of the units the remote source
/// accepts.
#[derive(Clone, Copy, Debug, PartialEq, Eq, Structural)]
pub enum FetchDuration {
    Seconds(i32),
    Days(i32),
    Weeks(i32),
    Months(i32),
    Years(i32),
}

/// Divides by a positive constant with machine truncation.
fn div_i32(a: i32, b: i32) -> (r: i32)
    requires
        b > 0,
    ensures
        r == div_trunc(a as int, b as int),
{
    if a >= 0 {
        a / b
    } else {
        let m: u64 = ((-(a as i64)) as u64) / (b as u64);
        proof {
            assert(m <= 0x8000_0000u64);
        }
        let r: i64 = -(m as i64);
        r as i32
    }
}

/// A window of at most one day is requested in seconds, a longer one in
/// whole days.
pub fn clamp_duration(seconds: i32) -> (r: FetchDuration)
    ensures
        seconds > 86400 ==> r == FetchDuration::Days(div_trunc(seconds as int, 86400) as i32),
        seconds <= 86400 ==> r == FetchDuration::Seconds(seconds),
{
    if seconds > 86400 {
        FetchDuration::Days(div_i32(seconds, 86400))
    } else {
        FetchDuration::Seconds(seconds)
    }
}

/// Chooses the unit in which a window of `seconds` is requested for the
/// given bar size: sub-daily sizes use the clamped second/day form, daily
/// data over a year is requested in years, weekly in weeks, monthly in
/// months.
pub fn convert_durations(seconds: i32, bar_size: HashedBarSize) -> (r: FetchDuration)
    ensures
        ({
            let secs = seconds as int;
            match bar_size {
                HashedBarSize::Day => if div_trunc(secs, 86400) > 365 {
                    r == FetchDuration::Years(div_trunc(secs, 31536000) as i32)
                } else {
                    r == FetchDuration::Days(div_trunc(secs, 86400) as i32)
                },
                HashedBarSize::Week => r == FetchDuration::Weeks(div_trunc(secs, 604800) as i32),
                HashedBarSize::Month => r == FetchDuration::Months(
                    div_trunc(secs, 2592000) as i32,
                ),
                _ => if seconds > 86400 {
                    r == FetchDuration::Days(div_trunc(secs, 86400) as i32)
                } else {
                    r == FetchDuration::Seconds(seconds)
                },
            }
        }),
{
    match bar_size {
        HashedBarSize::Day => {
            let days = div_i32(seconds, 86400);
            if days > 365 {
                FetchDuration::Years(div_i32(seconds, 31536000))
            } else {
                FetchDuration::Days(days)
            }
        },
        HashedBarSize::Week => FetchDuration::Weeks(div_i32(seconds, 604800)),
        HashedBarSize::Month => FetchDuration::Months(div_i32(seconds, 2592000)),
        _ => clamp_duration(seconds),
    }
}

} // verus!
