//! Conversions between PostgreSQL timestamps and spiral time.
//!
//! A `timestamptz` is held as microseconds since 2000-01-01 00:00:00 UTC;
//! spiral time is whole seconds since the Unix epoch.
use vstd::prelude::*;
use crate::catalog::trunc_div;
use crate::text::{chars_of, double_char, push_doubled, push_str, string_from_chars};

verus! {

/// Seconds between 1970-01-01 and 2000-01-01.
pub const POSTGRES_EPOCH_JDATE: i64 = 946684800;

/// Microseconds in one second.
pub const MICROS_PER_SECOND: i64 = 1000000;

/// Spiral time (Unix seconds) of a timestamp given in PostgreSQL microseconds.
pub open spec fn epoch_of_micros(micros: int) -> int {
    trunc_div(micros, MICROS_PER_SECOND as int) + POSTGRES_EPOCH_JDATE
}

/// PostgreSQL microseconds of a spiral time (Unix seconds).
pub open spec fn micros_of_epoch(epoch: int) -> int {
    (epoch - POSTGRES_EPOCH_JDATE) * MICROS_PER_SECOND
}

/// The Unix second in which the timestamp `micros` (microseconds since
/// 2000-01-01) falls, the fraction dropped toward zero.
pub fn spiral(micros: i64) -> (epoch: i64)
    ensures
        epoch == epoch_of_micros(micros as int),
{
    let wide: i128 = micros as i128;
    let secs: i128 = if wide >= 0 {
        wide / 1000000
    } else {
        -((-wide) / 1000000)
    };
    assert(-9223372036855 <= secs <= 9223372036855) by (nonlinear_arith)
        requires
            -9223372036854775808 <= wide <= 9223372036854775807,
            wide >= 0 ==> secs == wide / 1000000,
            wide < 0 ==> secs == -((-wide) / 1000000),
    ;
    (secs + 946684800i128) as i64
}

/// The same conversion under the name the SQL interface gives it.
pub fn spiral_to_epoch(micros: i64) -> (epoch: i64)
    ensures
        epoch == epoch_of_micros(micros as int),
{
    spiral(micros)
}

/// The timestamp (microseconds since 2000-01-01) at which the Unix second
/// `epoch` begins.
pub fn spiral_from_epoch(epoch: i64) -> (micros: i64)
    requires
        i64::MIN <= micros_of_epoch(epoch as int) <= i64::MAX,
    ensures
        micros == micros_of_epoch(epoch as int),
{
    (epoch - POSTGRES_EPOCH_JDATE) * MICROS_PER_SECOND
}

/// Turning a Unix second into a timestamp and back gives the same second.
pub proof fn lemma_epoch_round_trip(epoch: int)
    ensures
        epoch_of_micros(micros_of_epoch(epoch)) == epoch,
{
    let k = epoch - POSTGRES_EPOCH_JDATE;
    let m = k * 1000000;
    if k >= 0 {
        assert(m / 1000000 == k) by (nonlinear_arith)
            requires
                m == k * 1000000,
                k >= 0,
        ;
    } else {
        assert((-m) / 1000000 == -k) by (nonlinear_arith)
            requires
                m == k * 1000000,
                k < 0,
        ;
    }
}

/// A timestamp read back from its spiral time is the timestamp with its
/// fraction of a second dropped toward zero; a whole second comes back as it was.
pub proof fn lemma_micros_round_trip(micros: int)
    ensures
        micros_of_epoch(epoch_of_micros(micros)) == trunc_div(micros, 1000000) * 1000000,
        micros % 1000000 == 0 ==> micros_of_epoch(epoch_of_micros(micros)) == micros,
{
    if micros >= 0 {
        assert(micros % 1000000 == 0 ==> (micros / 1000000) * 1000000 == micros) by (nonlinear_arith);
    } else {
        assert(micros % 1000000 == 0 ==> -((-micros) / 1000000) * 1000000 == micros) by (nonlinear_arith)
            requires
                micros < 0,
        ;
    }
}

/// The kickoff date in force: the `spiral.kickoff_date` setting, or
/// 2000-01-01 where the setting is unset or empty.
pub open spec fn kickoff_date(setting: Option<Seq<char>>) -> Seq<char> {
    match setting {
        Some(s) => if s.len() > 0 { s } else { "2000-01-01"@ },
        None => "2000-01-01"@,
    }
}

/// The query that reads the kickoff date as a `timestamptz`.
pub open spec fn kickoff_query_spec(setting: Option<Seq<char>>) -> Seq<char> {
    "SELECT '"@ + double_char(kickoff_date(setting), '\'') + "'::timestamptz"@
}

/// The query that turns the kickoff setting (`None` where it is unset) into a
/// timestamp, its value quoted as a SQL literal.
pub fn kickoff_query(setting: Option<&str>) -> (sql: String)
    ensures
        sql@ == kickoff_query_spec(
            match setting {
                Some(s) => Some(s@),
                None => None,
            },
        ),
{
    let date: Vec<char> = match setting {
        Some(s) => {
            let v = chars_of(s);
            if v.len() > 0 {
                v
            } else {
                chars_of("2000-01-01")
            }
        },
        None => chars_of("2000-01-01"),
    };
    let mut out: Vec<char> = Vec::new();
    push_str(&mut out, "SELECT '");
    push_doubled(&mut out, &date, '\'');
    push_str(&mut out, "'::timestamptz");
    string_from_chars(&out)
}

} // verus!
