//! Labels and colours of the storage dashboard that depend on integers
//! only: the short name of a bucket size and the palette colour a table is
//! drawn in.
use vstd::prelude::*;
use crate::text::{chars_of, int_text, push_i64, push_str, string_from_chars};
use crate::zorder::utf8_of;

verus! {

/// FNV-1a 32-bit offset basis.
pub const FNV32_OFFSET_BASIS: u32 = 0x811c_9dc5;

/// FNV-1a 32-bit prime.
pub const FNV32_PRIME: u32 = 0x0100_0193;

/// FNV-1a 32-bit over a byte sequence, folding from the first byte.
pub open spec fn fnv1a32_spec(bytes: Seq<u8>) -> u32
    decreases bytes.len(),
{
    if bytes.len() == 0 {
        FNV32_OFFSET_BASIS
    } else {
        (((fnv1a32_spec(bytes.drop_last()) ^ (bytes.last() as u32)) as int * FNV32_PRIME as int) % 0x1_0000_0000int) as u32
    }
}

/// How many colours the table palette has.
pub const PALETTE_LEN: usize = 15;

/// The palette slot of a table: the FNV-1a 32-bit hash of its name's UTF-8
/// bytes, modulo the palette's length.
pub fn palette_index(base_view: &str) -> (r: usize)
    ensures
        r == fnv1a32_spec(utf8_of(base_view@)) as int % PALETTE_LEN as int,
{
    let bytes = base_view.as_bytes();
    let mut h: u32 = FNV32_OFFSET_BASIS;
    let n = bytes.len();
    let mut i: usize = 0;
    while i < n
        invariant
            n == bytes@.len(),
            bytes@ == utf8_of(base_view@),
            i <= n,
            h == fnv1a32_spec(bytes@.take(i as int)),
        decreases n - i,
    {
        proof {
            assert(bytes@.take(i + 1).drop_last() =~= bytes@.take(i as int));
        }
        h = h ^ (bytes[i] as u32);
        h = h.wrapping_mul(FNV32_PRIME);
        i = i + 1;
    }
    proof {
        assert(bytes@.take(n as int) =~= bytes@);
    }
    (h % (PALETTE_LEN as u32)) as usize
}

/// The palette's colours, each readable on the dashboard's dark
/// background.
pub open spec fn palette_color_spec(i: int) -> Seq<char> {
    if i == 0 {
        "#3fb950"@
    } else if i == 1 {
        "#58a6ff"@
    } else if i == 2 {
        "#ff7b72"@
    } else if i == 3 {
        "#d2a8ff"@
    } else if i == 4 {
        "#ffa657"@
    } else if i == 5 {
        "#79c0ff"@
    } else if i == 6 {
        "#56d364"@
    } else if i == 7 {
        "#e3b341"@
    } else if i == 8 {
        "#f778ba"@
    } else if i == 9 {
        "#40c4ff"@
    } else if i == 10 {
        "#ff9800"@
    } else if i == 11 {
        "#b39ddb"@
    } else if i == 12 {
        "#00e5ff"@
    } else if i == 13 {
        "#69ff47"@
    } else {
        "#ff4081"@
    }
}

/// The palette colour in slot `i` (`i < PALETTE_LEN`).
pub fn palette_color(i: usize) -> (r: &'static str)
    requires
        i < PALETTE_LEN,
    ensures
        r@ == palette_color_spec(i as int),
{
    match i {
        0 => "#3fb950",
        1 => "#58a6ff",
        2 => "#ff7b72",
        3 => "#d2a8ff",
        4 => "#ffa657",
        5 => "#79c0ff",
        6 => "#56d364",
        7 => "#e3b341",
        8 => "#f778ba",
        9 => "#40c4ff",
        10 => "#ff9800",
        11 => "#b39ddb",
        12 => "#00e5ff",
        13 => "#69ff47",
        _ => "#ff4081",
    }
}

/// The colour a table is drawn in unless the user chose one.
pub fn default_table_color(base_view: &str) -> (r: String)
    ensures
        r@ == palette_color_spec(fnv1a32_spec(utf8_of(base_view@)) as int % PALETTE_LEN as int),
{
    palette_color(palette_index(base_view)).to_owned()
}

/// The short label of a bucket size below a year: `raw` for none, else the
/// count in the largest unit it reaches (`s`, `m`, `h`, `d`, `w`, `mo`),
/// rounded down; `None` for a year or more, which is labelled in years
/// with one decimal.
pub open spec fn timespan_label_spec(sec: int) -> Option<Seq<char>> {
    if sec == 0 {
        Some("raw"@)
    } else if sec < 60 {
        Some(int_text(sec) + "s"@)
    } else if sec < 3600 {
        Some(int_text(sec / 60) + "m"@)
    } else if sec < 86400 {
        Some(int_text(sec / 3600) + "h"@)
    } else if sec < 604800 {
        Some(int_text(sec / 86400) + "d"@)
    } else if sec < 2592000 {
        Some(int_text(sec / 604800) + "w"@)
    } else if sec < 31536000 {
        Some(int_text(sec / 2592000) + "mo"@)
    } else {
        None
    }
}

/// The short label of a bucket size (see `timespan_label_spec`).
pub fn timespan_label(sec: i32) -> (r: Option<String>)
    ensures
        crate::rollup::opt_text(r) == timespan_label_spec(sec as int),
{
    if sec == 0 {
        return Some("raw".to_owned());
    }
    let mut v: Vec<char> = Vec::new();
    if sec < 60 {
        push_i64(&mut v, sec as i64);
        push_str(&mut v, "s");
    } else if sec < 3600 {
        push_i64(&mut v, (sec / 60) as i64);
        push_str(&mut v, "m");
    } else if sec < 86400 {
        push_i64(&mut v, (sec / 3600) as i64);
        push_str(&mut v, "h");
    } else if sec < 604800 {
        push_i64(&mut v, (sec / 86400) as i64);
        push_str(&mut v, "d");
    } else if sec < 2592000 {
        push_i64(&mut v, (sec / 604800) as i64);
        push_str(&mut v, "w");
    } else if sec < 31536000 {
        push_i64(&mut v, (sec / 2592000) as i64);
        push_str(&mut v, "mo");
    } else {
        return None;
    }
    Some(string_from_chars(&v))
}

} // verus!
