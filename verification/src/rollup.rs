//! Rollup tiers: parsing of frame lists such as `1m, 1h, 1M` into frames,
//! the calendar alignment of month, quarter and year tiers, and the SQL that
//! derives a child tier from its parent.
use vstd::prelude::*;
use crate::text::{
    chars_eq_str, chars_of, ends_with, ends_with_spec, int_text, join_chars, join_spec,
    parse_i32, parse_i32_spec, push_chars, push_i64, push_str, replace_chars, replace_spec,
    seqs_view, slice_chars, split_chars, split_spec, string_from_chars, trim_chars,
    trim_end_matches, trim_end_matches_spec, trim_spec,
};

verus! {

/// One rollup tier.
pub struct Frame {
    pub name: String,
    pub seconds: i32,
    /// The `date_trunc` field (`month`, `quarter` or `year`) of a
    /// calendar-aligned tier; `None` for tiers of a fixed number of seconds.
    pub calendar_field: Option<String>,
}

/// The frame list used when a table names none.
pub const DEFAULT_FRAMES: &'static str = "1m,1d,1M";

/// The view of an optional string.
pub open spec fn opt_text(o: Option<String>) -> Option<Seq<char>> {
    match o {
        Some(s) => Some(s@),
        None => None,
    }
}

impl View for Frame {
    type V = (Seq<char>, int, Option<Seq<char>>);

    open spec fn view(&self) -> (Seq<char>, int, Option<Seq<char>>) {
        (self.name@, self.seconds as int, opt_text(self.calendar_field))
    }
}

/// The views of a list of frames.
pub open spec fn frames_view(v: Seq<Frame>) -> Seq<(Seq<char>, int, Option<Seq<char>>)> {
    v.map_values(|f: Frame| f@)
}

pub open spec fn month_word() -> Seq<char> {
    seq!['m', 'o', 'n', 't', 'h']
}

pub open spec fn mon_word() -> Seq<char> {
    seq!['m', 'o', 'n']
}

pub open spec fn mo_word() -> Seq<char> {
    seq!['m', 'o']
}

pub open spec fn quarter_word() -> Seq<char> {
    seq!['q', 'u', 'a', 'r', 't', 'e', 'r']
}

pub open spec fn year_word() -> Seq<char> {
    seq!['y', 'e', 'a', 'r']
}

/// The count in front of a unit: its value as an `i32`, or 0 when it does
/// not parse.
pub open spec fn count_of(s: Seq<char>) -> int {
    match parse_i32_spec(s) {
        Some(n) => n as int,
        None => 0,
    }
}

/// `s` ends with the character `c`.
pub open spec fn ends_with_char(s: Seq<char>, c: char) -> bool {
    s.len() > 0 && s.last() == c
}

/// How one trimmed entry of a frame list reads: whether it carries a
/// calendar word (`month`/`mon`/`mo`, `quarter`, `year`/`Y`), its count, the
/// seconds of one unit, the frame's name and its calendar field.
pub open spec fn frame_parts(s: Seq<char>) -> (bool, int, int, Seq<char>, Option<Seq<char>>) {
    if ends_with_spec(s, month_word()) || ends_with_spec(s, mon_word()) || ends_with_spec(
        s,
        mo_word(),
    ) {
        let n = count_of(
            trim_end_matches_spec(
                trim_end_matches_spec(trim_end_matches_spec(s, month_word()), mon_word()),
                mo_word(),
            ),
        );
        (true, n, 2_592_000, int_text(n) + mo_word(), Some(month_word()))
    } else if ends_with_spec(s, quarter_word()) {
        let n = count_of(trim_end_matches_spec(s, quarter_word()));
        (true, n, 7_776_000, int_text(n) + quarter_word(), Some(quarter_word()))
    } else if ends_with_spec(s, year_word()) || ends_with_char(s, 'Y') {
        let n = count_of(trim_end_matches_spec(trim_end_matches_spec(s, year_word()), seq!['Y']));
        (true, n, 31_536_000, int_text(n) + year_word(), Some(year_word()))
    } else if ends_with_char(s, 'M') {
        let n = count_of(s.drop_last());
        (false, n, 2_592_000, int_text(n) + mo_word(), Some(month_word()))
    } else if ends_with_char(s, 'Q') {
        let n = count_of(s.drop_last());
        (false, n, 7_776_000, int_text(n) + quarter_word(), Some(quarter_word()))
    } else if ends_with_char(s, 's') {
        (false, count_of(s.drop_last()), 1, s, None)
    } else if ends_with_char(s, 'm') {
        (false, count_of(s.drop_last()), 60, s, None)
    } else if ends_with_char(s, 'h') {
        (false, count_of(s.drop_last()), 3600, s, None)
    } else if ends_with_char(s, 'd') {
        (false, count_of(s.drop_last()), 86400, s, None)
    } else if ends_with_char(s, 'w') {
        (false, count_of(s.drop_last()), 604_800, s, None)
    } else {
        (false, count_of(s), 1, s, None)
    }
}

/// The frame that one trimmed entry describes: `None` when its count is not
/// positive (which includes text that does not parse).
pub open spec fn frame_spec(s: Seq<char>) -> Option<(Seq<char>, int, Option<Seq<char>>)> {
    let p = frame_parts(s);
    if p.1 <= 0 {
        None
    } else {
        Some((p.3, p.1 * p.2, p.4))
    }
}

/// The seconds of an entry are computed without leaving `i32`: entries with
/// a calendar word multiply only a positive count, the others multiply
/// whatever count they read.
pub open spec fn frame_fits(s: Seq<char>) -> bool {
    let p = frame_parts(s);
    if p.0 {
        p.1 <= 0 || p.1 * p.2 <= i32::MAX
    } else {
        i32::MIN <= p.1 * p.2 <= i32::MAX
    }
}

/// The frames of a list of raw (untrimmed) entries, in order, skipping those
/// that describe no frame.
pub open spec fn frames_of(pieces: Seq<Seq<char>>) -> Seq<(Seq<char>, int, Option<Seq<char>>)>
    decreases pieces.len(),
{
    if pieces.len() == 0 {
        Seq::empty()
    } else {
        let prev = frames_of(pieces.drop_last());
        match frame_spec(trim_spec(pieces.last())) {
            Some(f) => prev.push(f),
            None => prev,
        }
    }
}

/// Every entry of a comma-separated frame list computes its seconds inside
/// `i32`.
pub open spec fn frame_list_fits(s: Seq<char>) -> bool {
    forall|i: int|
        0 <= i < split_spec(s, ',').len() ==> frame_fits(trim_spec(#[trigger] split_spec(s, ',')[i]))
}

fn word_vec(w: u8) -> (v: Vec<char>)
    requires
        w < 5,
    ensures
        w == 0 ==> v@ == month_word(),
        w == 1 ==> v@ == mon_word(),
        w == 2 ==> v@ == mo_word(),
        w == 3 ==> v@ == quarter_word(),
        w == 4 ==> v@ == year_word(),
{
    let v = if w == 0 {
        vec!['m', 'o', 'n', 't', 'h']
    } else if w == 1 {
        vec!['m', 'o', 'n']
    } else if w == 2 {
        vec!['m', 'o']
    } else if w == 3 {
        vec!['q', 'u', 'a', 'r', 't', 'e', 'r']
    } else {
        vec!['y', 'e', 'a', 'r']
    };
    proof {
        if w == 0 {
            assert(v@ =~= month_word());
        } else if w == 1 {
            assert(v@ =~= mon_word());
        } else if w == 2 {
            assert(v@ =~= mo_word());
        } else if w == 3 {
            assert(v@ =~= quarter_word());
        } else {
            assert(v@ =~= year_word());
        }
    }
    v
}

fn count_or_zero(v: &Vec<char>) -> (n: i32)
    ensures
        n as int == count_of(v@),
{
    match parse_i32(v) {
        Some(n) => n,
        None => 0,
    }
}

fn ends_with_c(v: &Vec<char>, c: char) -> (r: bool)
    ensures
        r == ends_with_char(v@, c),
{
    v.len() > 0 && v[v.len() - 1] == c
}

fn counted_name(n: i32, word: &Vec<char>) -> (s: Vec<char>)
    ensures
        s@ == int_text(n as int) + word@,
{
    let mut out: Vec<char> = Vec::new();
    push_i64(&mut out, n as i64);
    push_chars(&mut out, word);
    proof {
        assert(out@ =~= int_text(n as int) + word@);
    }
    out
}

fn drop_last_char(v: &Vec<char>) -> (r: Vec<char>)
    requires
        v@.len() > 0,
    ensures
        r@ == v@.drop_last(),
{
    let r = slice_chars(v, 0, v.len() - 1);
    proof {
        assert(r@ =~= v@.drop_last());
    }
    r
}

fn parts_of(s: &Vec<char>) -> (r: (bool, i32, i32, Vec<char>, Option<Vec<char>>))
    ensures
        (r.0, r.1 as int, r.2 as int, r.3@, match r.4 {
            Some(c) => Some(c@),
            None => None,
        }) == frame_parts(s@),
{
    let month = word_vec(0);
    let mon = word_vec(1);
    let mo = word_vec(2);
    let quarter = word_vec(3);
    let year = word_vec(4);
    if ends_with(s, &month) || ends_with(s, &mon) || ends_with(s, &mo) {
        let a = trim_end_matches(s, &month);
        let b = trim_end_matches(&a, &mon);
        let c = trim_end_matches(&b, &mo);
        let n = count_or_zero(&c);
        let name = counted_name(n, &mo);
        (true, n, 2_592_000, name, Some(month))
    } else if ends_with(s, &quarter) {
        let a = trim_end_matches(s, &quarter);
        let n = count_or_zero(&a);
        let name = counted_name(n, &quarter);
        (true, n, 7_776_000, name, Some(quarter))
    } else if ends_with(s, &year) || ends_with_c(s, 'Y') {
        let a = trim_end_matches(s, &year);
        let y = vec!['Y'];
        proof {
            assert(y@ =~= seq!['Y']);
        }
        let b = trim_end_matches(&a, &y);
        let n = count_or_zero(&b);
        let name = counted_name(n, &year);
        (true, n, 31_536_000, name, Some(year))
    } else if ends_with_c(s, 'M') {
        let n = count_or_zero(&drop_last_char(s));
        let name = counted_name(n, &mo);
        (false, n, 2_592_000, name, Some(month))
    } else if ends_with_c(s, 'Q') {
        let n = count_or_zero(&drop_last_char(s));
        let name = counted_name(n, &quarter);
        (false, n, 7_776_000, name, Some(quarter))
    } else {
        let unit: i32 = if ends_with_c(s, 's') {
            1
        } else if ends_with_c(s, 'm') {
            60
        } else if ends_with_c(s, 'h') {
            3600
        } else if ends_with_c(s, 'd') {
            86400
        } else if ends_with_c(s, 'w') {
            604_800
        } else {
            0
        };
        let name = slice_chars(s, 0, s.len());
        proof {
            assert(name@ =~= s@);
        }
        if unit == 0 {
            (false, count_or_zero(s), 1, name, None)
        } else {
            (false, count_or_zero(&drop_last_char(s)), unit, name, None)
        }
    }
}

fn entry_fits(s: &Vec<char>) -> (r: bool)
    ensures
        r == frame_fits(s@),
{
    let (cal, n, unit, _, _) = parts_of(s);
    assert(1 <= unit <= 31_536_000);
    assert(-0x8000_0000 * 31_536_000 <= (n as int) * (unit as int) <= 0x8000_0000 * 31_536_000) by (nonlinear_arith)
        requires
            i32::MIN <= n <= i32::MAX,
            1 <= unit <= 31_536_000,
    ;
    let prod: i64 = (n as i64) * (unit as i64);
    if cal {
        n <= 0 || prod <= i32::MAX as i64
    } else {
        i32::MIN as i64 <= prod && prod <= i32::MAX as i64
    }
}

/// Tests that every entry of a frame list computes its seconds inside
/// `i32`, which `parse_frames` needs.
pub fn frames_fit(frames_str: &str) -> (r: bool)
    ensures
        r == frame_list_fits(frames_str@),
{
    let cs = chars_of(frames_str);
    let pieces = split_chars(&cs, ',');
    let ghost sv = split_spec(frames_str@, ',');
    let n = pieces.len();
    let mut i: usize = 0;
    while i < n
        invariant
            n == pieces@.len(),
            seqs_view(pieces@) == sv,
            sv == split_spec(frames_str@, ','),
            i <= n,
            forall|k: int| 0 <= k < i ==> frame_fits(trim_spec(#[trigger] sv[k])),
        decreases n - i,
    {
        proof {
            assert(sv[i as int] == pieces@[i as int]@);
        }
        if !entry_fits(&trim_chars(&pieces[i])) {
            return false;
        }
        i = i + 1;
    }
    true
}

/// Reads one trimmed entry of a frame list.
pub fn parse_frame(s: &Vec<char>) -> (r: Option<Frame>)
    requires
        frame_fits(s@),
    ensures
        match r {
            Some(f) => frame_spec(s@) == Some(f@),
            None => frame_spec(s@).is_none(),
        },
{
    let (word, n, unit, name, cal) = parts_of(s);
    if word && n <= 0 {
        return None;
    }
    let seconds: i32 = n * unit;
    if seconds <= 0 {
        proof {
            assert(n as int * unit as int <= 0);
            assert(n <= 0) by (nonlinear_arith)
                requires
                    n as int * unit as int <= 0,
                    unit > 0,
            ;
        }
        return None;
    }
    proof {
        assert(n > 0) by (nonlinear_arith)
            requires
                n as int * unit as int > 0,
                unit > 0,
        ;
    }
    let calendar_field = match cal {
        Some(c) => Some(string_from_chars(&c)),
        None => None,
    };
    Some(Frame { name: string_from_chars(&name), seconds, calendar_field })
}

/// Parses a comma-separated list of frames such as `1m, 1h, 1M`.
///
/// Each entry is trimmed and read by its suffix: `s`, `m`, `h`, `d`, `w` for
/// seconds, minutes, hours, days and weeks; `M`, `Q`, `Y` and the words
/// `mon`/`month`/`mo`, `quarter`, `year` for calendar-aligned months,
/// quarters and years. Entries whose count is not a positive integer are
/// skipped.
pub fn parse_frames(frames_str: &str) -> (r: Vec<Frame>)
    requires
        frame_list_fits(frames_str@),
    ensures
        frames_view(r@) == frames_of(split_spec(frames_str@, ',')),
{
    let cs = chars_of(frames_str);
    let pieces = split_chars(&cs, ',');
    let ghost ps = split_spec(frames_str@, ',');
    let mut out: Vec<Frame> = Vec::new();
    let n = pieces.len();
    let mut i: usize = 0;
    proof {
        assert(seqs_view(pieces@).len() == n);
        assert(ps.take(0) =~= Seq::<Seq<char>>::empty());
        assert(frames_view(out@) =~= Seq::<(Seq<char>, int, Option<Seq<char>>)>::empty());
    }
    while i < n
        invariant
            i <= n,
            n == pieces@.len(),
            seqs_view(pieces@) == ps,
            ps == split_spec(frames_str@, ','),
            frame_list_fits(frames_str@),
            frames_view(out@) == frames_of(ps.take(i as int)),
        decreases n - i,
    {
        let t = trim_chars(&pieces[i]);
        proof {
            assert(ps[i as int] == pieces@[i as int]@);
            assert(frame_fits(trim_spec(ps[i as int])));
            assert(ps.take(i as int + 1).drop_last() =~= ps.take(i as int));
        }
        match parse_frame(&t) {
            Some(f) => {
                out.push(f);
                proof {
                    assert(frames_view(out@) =~= frames_of(ps.take(i as int + 1)));
                }
            },
            None => {
                proof {
                    assert(frames_view(out@) =~= frames_of(ps.take(i as int + 1)));
                }
            },
        }
        i = i + 1;
    }
    proof {
        assert(ps.take(n as int) =~= ps);
    }
    out
}

/// The `date_trunc` field of a calendar-aligned frame, known by its size in
/// seconds: a month of 30 days, a quarter of 90, a year of 365.
pub open spec fn calendar_field_spec(frame_seconds: int) -> Option<Seq<char>> {
    if frame_seconds == 2_592_000 {
        Some(month_word())
    } else if frame_seconds == 7_776_000 {
        Some(quarter_word())
    } else if frame_seconds == 31_536_000 {
        Some(year_word())
    } else {
        None
    }
}

/// The view of an optional string slice.
pub open spec fn opt_str(o: Option<&str>) -> Option<Seq<char>> {
    match o {
        Some(s) => Some(s@),
        None => None,
    }
}

/// The `date_trunc` field for a frame of the given size, or `None` for
/// frames of a fixed number of seconds.
pub fn calendar_field_for_seconds(frame_seconds: i32) -> (r: Option<&'static str>)
    ensures
        opt_str(r) == calendar_field_spec(frame_seconds as int),
{
    proof {
        reveal_strlit("month");
        reveal_strlit("quarter");
        reveal_strlit("year");
    }
    if frame_seconds == 2_592_000 {
        Some("month")
    } else if frame_seconds == 7_776_000 {
        Some("quarter")
    } else if frame_seconds == 31_536_000 {
        Some("year")
    } else {
        None
    }
}

// ---------------------------------------------------------------------------
// Deriving a child tier
// ---------------------------------------------------------------------------

/// How one column of a tier is materialised: from `base_column` of the base
/// table by `formula`, into `mat_column`, optionally through a rollup
/// strategy in which `rollup("\1")` stands for the source column and `\1`
/// for the materialised one.
pub struct SourceDef {
    pub base_column: String,
    pub formula: String,
    pub mat_column: String,
    pub rollup_gsub_strategy: Option<String>,
}

/// The view of a source definition.
pub open spec fn source_view(s: SourceDef) -> (Seq<char>, Seq<char>, Seq<char>, Option<Seq<char>>) {
    (s.base_column@, s.formula@, s.mat_column@, opt_text(s.rollup_gsub_strategy))
}

/// The views of a list of source definitions.
pub open spec fn sources_view(v: Seq<SourceDef>) -> Seq<(Seq<char>, Seq<char>, Seq<char>, Option<Seq<char>>)> {
    v.map_values(|s: SourceDef| source_view(s))
}

/// The views of a list of strings.
pub open spec fn strings_view(v: Seq<String>) -> Seq<Seq<char>> {
    v.map_values(|s: String| s@)
}

/// What the catalog knows when a child tier is derived: whether the child
/// table exists, the parent's bucket size and time column from its metadata
/// row (when it has one), the source definitions registered for the child
/// and for the parent, and the columns of the child and parent tables.
pub struct ChildCatalog {
    pub child_exists: bool,
    pub parent_frame_seconds: Option<i32>,
    pub parent_time_column: Option<String>,
    pub child_sources: Vec<SourceDef>,
    pub parent_sources: Vec<SourceDef>,
    pub child_columns: Vec<String>,
    pub parent_columns: Vec<String>,
}

/// `x` as a double-quoted SQL identifier.
pub open spec fn quoted(x: Seq<char>) -> Seq<char> {
    "\""@ + x + "\""@
}

/// The parent is itself a rollup tier (its metadata gives it a positive
/// bucket).
pub open spec fn parent_is_view(c: ChildCatalog) -> bool {
    match c.parent_frame_seconds {
        Some(f) => f > 0,
        None => false,
    }
}

/// The time column the child's buckets are computed from.
pub open spec fn anchor_column(c: ChildCatalog) -> Seq<char> {
    if parent_is_view(c) {
        "t"@
    } else {
        match c.parent_time_column {
            Some(col) => col@,
            None => "t"@,
        }
    }
}

/// The epoch bucket of the anchor column, as a timestamp.
pub open spec fn bucket_expr(anchor: Seq<char>, fs: int) -> Seq<char> {
    "to_timestamp(((spiral(\""@ + anchor + "\") / "@ + int_text(fs) + ") * "@ + int_text(fs)
        + ")::double precision)"@
}

/// The child's time column: the calendar bucket or the epoch bucket.
pub open spec fn time_select_spec(cal: Option<Seq<char>>, anchor: Seq<char>, fs: int) -> Seq<char> {
    match cal {
        Some(f) => "date_trunc('"@ + f + "', \""@ + anchor + "\") as t"@,
        None => bucket_expr(anchor, fs) + " as t"@,
    }
}

/// The child's grouping key for time.
pub open spec fn time_group_spec(cal: Option<Seq<char>>, anchor: Seq<char>, fs: int) -> Seq<char> {
    match cal {
        Some(f) => "date_trunc('"@ + f + "', \""@ + anchor + "\")"@,
        None => "(spiral(\""@ + anchor + "\") / "@ + int_text(fs) + ") * "@ + int_text(fs),
    }
}

/// The aggregate of a plain formula: `min` and `max` keep their own,
/// counts are summed when rolling up a rollup, everything else is summed.
pub open spec fn plain_aggregate(formula: Seq<char>, from_view: bool) -> Seq<char> {
    if formula == "min"@ {
        "min"@
    } else if formula == "max"@ {
        "max"@
    } else if formula == "count"@ && !from_view {
        "count"@
    } else {
        "sum"@
    }
}

/// The select expression that materialises one source in the child.
pub open spec fn source_select_spec(
    src: (Seq<char>, Seq<char>, Seq<char>, Option<Seq<char>>),
    from_view: bool,
    anchor: Seq<char>,
    fs: int,
) -> Seq<char> {
    let (base, formula, mat, strategy) = src;
    match strategy {
        Some(st) => replace_spec(
            replace_spec(st, "rollup(\"\\1\")"@, quoted(if from_view {
                mat
            } else {
                base
            })),
            "\\1"@,
            mat,
        ),
        None => if formula == "stats"@ {
            if !from_view {
                "spiral_stats("@ + quoted(base) + ") as "@ + quoted(mat)
            } else {
                "spiral_stats_merge("@ + quoted(mat) + ") as "@ + quoted(mat)
            }
        } else if formula == "sketch"@ {
            if !from_view {
                "spiral_sketch("@ + quoted(base) + ") as "@ + quoted(mat)
            } else {
                "spiral_sketch_merge("@ + quoted(mat) + ") as "@ + quoted(mat)
            }
        } else if formula == "tdigest"@ {
            if !from_view {
                "spiral_tdigest("@ + quoted(base) + ") as "@ + quoted(mat)
            } else {
                "spiral_tdigest_merge("@ + quoted(mat) + ") as "@ + quoted(mat)
            }
        } else if formula == "ohlcv"@ {
            if !from_view {
                "spiral_ohlcv("@ + quoted(base) + ", spiral(t)) as "@ + quoted(mat)
            } else {
                "spiral_ohlcv_merge("@ + quoted(mat) + ") as "@ + quoted(mat)
            }
        } else if formula == "range_max_end"@ || formula == "range_merge"@ {
            if !from_view {
                "date_part('epoch', max("@ + quoted(base) + ") - "@ + bucket_expr(anchor, fs)
                    + ")::int4 as "@ + quoted(mat)
            } else {
                "max("@ + quoted(mat) + ") as "@ + quoted(mat)
            }
        } else {
            plain_aggregate(formula, from_view) + "("@ + quoted(if from_view {
                mat
            } else {
                base
            }) + ") as "@ + quoted(mat)
        },
    }
}

/// The source definitions the child is derived with: the child's own when
/// it exists and has some, else the parent's.
pub open spec fn used_sources(c: ChildCatalog) -> Seq<(Seq<char>, Seq<char>, Seq<char>, Option<Seq<char>>)> {
    if c.child_exists && c.child_sources@.len() > 0 {
        sources_view(c.child_sources@)
    } else {
        sources_view(c.parent_sources@)
    }
}

/// The columns of `cols` other than `t` and the scope columns, in order.
pub open spec fn non_scope_columns(cols: Seq<Seq<char>>, scope: Seq<Seq<char>>) -> Seq<Seq<char>>
    decreases cols.len(),
{
    if cols.len() == 0 {
        Seq::empty()
    } else {
        let prev = non_scope_columns(cols.drop_last(), scope);
        let col = cols.last();
        if col != "t"@ && !scope.contains(col) {
            prev.push(col)
        } else {
            prev
        }
    }
}

/// The columns summed when no source definitions exist: those of the child
/// table when it exists, else the parent's, without `t` and the scope
/// columns.
pub open spec fn fallback_columns(c: ChildCatalog, scope: Seq<Seq<char>>) -> Seq<Seq<char>> {
    non_scope_columns(
        if c.child_exists {
            strings_view(c.child_columns@)
        } else {
            strings_view(c.parent_columns@)
        },
        scope,
    )
}

/// The source definitions a child ends up with: those it was derived with,
/// else one `sum` per fallback column.
pub open spec fn derived_sources(c: ChildCatalog, scope: Seq<Seq<char>>) -> Seq<(Seq<char>, Seq<char>, Seq<char>, Option<Seq<char>>)> {
    if used_sources(c).len() > 0 {
        used_sources(c)
    } else {
        sum_sources(fallback_columns(c, scope))
    }
}

/// Each name quoted (after trimming, with `trim`).
pub open spec fn quoted_list(names: Seq<Seq<char>>, trim: bool) -> Seq<Seq<char>>
    decreases names.len(),
{
    if names.len() == 0 {
        Seq::empty()
    } else {
        quoted_list(names.drop_last(), trim).push(
            quoted(
                if trim {
                    trim_spec(names.last())
                } else {
                    names.last()
                },
            ),
        )
    }
}

/// The select expression of each source.
pub open spec fn source_selects(
    srcs: Seq<(Seq<char>, Seq<char>, Seq<char>, Option<Seq<char>>)>,
    from_view: bool,
    anchor: Seq<char>,
    fs: int,
) -> Seq<Seq<char>>
    decreases srcs.len(),
{
    if srcs.len() == 0 {
        Seq::empty()
    } else {
        source_selects(srcs.drop_last(), from_view, anchor, fs).push(
            source_select_spec(srcs.last(), from_view, anchor, fs),
        )
    }
}

/// A `sum` of each column, under its own name.
pub open spec fn sum_selects(cols: Seq<Seq<char>>) -> Seq<Seq<char>>
    decreases cols.len(),
{
    if cols.len() == 0 {
        Seq::empty()
    } else {
        sum_selects(cols.drop_last()).push("sum("@ + quoted(cols.last()) + ") as "@ + quoted(cols.last()))
    }
}

/// A `sum` source definition for each column.
pub open spec fn sum_sources(cols: Seq<Seq<char>>) -> Seq<(Seq<char>, Seq<char>, Seq<char>, Option<Seq<char>>)>
    decreases cols.len(),
{
    if cols.len() == 0 {
        Seq::empty()
    } else {
        sum_sources(cols.drop_last()).push((cols.last(), "sum"@, cols.last(), None))
    }
}

/// The child's select list.
pub open spec fn select_cols_spec(
    c: ChildCatalog,
    scope: Seq<Seq<char>>,
    fs: int,
    cal: Option<Seq<char>>,
) -> Seq<Seq<char>> {
    let anchor = anchor_column(c);
    let srcs = used_sources(c);
    seq![time_select_spec(cal, anchor, fs)] + quoted_list(scope, false) + if srcs.len() > 0 {
        source_selects(srcs, parent_is_view(c), anchor, fs)
    } else {
        sum_selects(fallback_columns(c, scope))
    }
}

/// The index created on the child: a unique index on time without scope
/// columns, else a Z-order index over time and the (trimmed) scope columns.
pub open spec fn child_index_spec(child: Seq<char>, scope: Seq<Seq<char>>) -> Seq<char> {
    if scope.len() == 0 {
        "CREATE UNIQUE INDEX IF NOT EXISTS idx_u_"@ + child + " ON "@ + child + "(t)"@
    } else {
        "CREATE INDEX IF NOT EXISTS idx_z_"@ + child + " ON "@ + child
            + " (\n                    spiral_zorder(spiral(t), ARRAY["@ + join_spec(quoted_list(scope, true), ", "@)
            + "]::text[])\n                )"@
    }
}

/// The statements that create and index the child tier.
pub open spec fn child_sql_spec(
    child: Seq<char>,
    parent: Seq<char>,
    fs: int,
    scope: Seq<Seq<char>>,
    cal: Option<Seq<char>>,
    c: ChildCatalog,
) -> Seq<char> {
    let anchor = anchor_column(c);
    "CREATE TABLE "@ + child + " AS\n             SELECT "@ + join_spec(select_cols_spec(c, scope, fs, cal), ", "@)
        + "\n             FROM "@ + parent + "\n             GROUP BY "@ + join_spec(
        seq![time_group_spec(cal, anchor, fs)] + quoted_list(scope, false),
        ", "@,
    ) + ";\n             "@ + child_index_spec(child, scope) + ";"@
}

pub(crate) fn push_quoted(out: &mut Vec<char>, x: &Vec<char>)
    ensures
        final(out)@ == old(out)@ + quoted(x@),
{
    push_str(out, "\"");
    push_chars(out, x);
    push_str(out, "\"");
    proof {
        assert(final(out)@ =~= old(out)@ + quoted(x@));
    }
}

pub(crate) fn push_int(out: &mut Vec<char>, n: i32)
    ensures
        final(out)@ == old(out)@ + int_text(n as int),
{
    push_i64(out, n as i64);
}

fn bucket_expr_exec(out: &mut Vec<char>, anchor: &Vec<char>, fs: i32)
    ensures
        final(out)@ == old(out)@ + bucket_expr(anchor@, fs as int),
{
    push_str(out, "to_timestamp(((spiral(\"");
    push_chars(out, anchor);
    push_str(out, "\") / ");
    push_int(out, fs);
    push_str(out, ") * ");
    push_int(out, fs);
    push_str(out, ")::double precision)");
    proof {
        assert(final(out)@ =~= old(out)@ + bucket_expr(anchor@, fs as int));
    }
}

fn time_select_exec(cal: Option<&str>, anchor: &Vec<char>, fs: i32) -> (r: Vec<char>)
    ensures
        r@ == time_select_spec(opt_str(cal), anchor@, fs as int),
{
    let mut out: Vec<char> = Vec::new();
    match cal {
        Some(f) => {
            push_str(&mut out, "date_trunc('");
            push_str(&mut out, f);
            push_str(&mut out, "', \"");
            push_chars(&mut out, anchor);
            push_str(&mut out, "\") as t");
        },
        None => {
            bucket_expr_exec(&mut out, anchor, fs);
            push_str(&mut out, " as t");
        },
    }
    proof {
        assert(out@ =~= time_select_spec(opt_str(cal), anchor@, fs as int));
    }
    out
}

fn time_group_exec(cal: Option<&str>, anchor: &Vec<char>, fs: i32) -> (r: Vec<char>)
    ensures
        r@ == time_group_spec(opt_str(cal), anchor@, fs as int),
{
    let mut out: Vec<char> = Vec::new();
    match cal {
        Some(f) => {
            push_str(&mut out, "date_trunc('");
            push_str(&mut out, f);
            push_str(&mut out, "', \"");
            push_chars(&mut out, anchor);
            push_str(&mut out, "\")");
        },
        None => {
            push_str(&mut out, "(spiral(\"");
            push_chars(&mut out, anchor);
            push_str(&mut out, "\") / ");
            push_int(&mut out, fs);
            push_str(&mut out, ") * ");
            push_int(&mut out, fs);
        },
    }
    proof {
        assert(out@ =~= time_group_spec(opt_str(cal), anchor@, fs as int));
    }
    out
}

fn call_expr(out: &mut Vec<char>, func: &str, arg: &Vec<char>, tail: &str, mat: &Vec<char>)
    ensures
        final(out)@ == old(out)@ + func@ + quoted(arg@) + tail@ + quoted(mat@),
{
    push_str(out, func);
    push_quoted(out, arg);
    push_str(out, tail);
    push_quoted(out, mat);
    proof {
        assert(final(out)@ =~= old(out)@ + func@ + quoted(arg@) + tail@ + quoted(mat@));
    }
}

fn source_select(src: &SourceDef, from_view: bool, anchor: &Vec<char>, fs: i32) -> (r: Vec<char>)
    ensures
        r@ == source_select_spec(source_view(*src), from_view, anchor@, fs as int),
{
    let base = chars_of(src.base_column.as_str());
    let formula = chars_of(src.formula.as_str());
    let mat = chars_of(src.mat_column.as_str());
    let mut out: Vec<char> = Vec::new();
    match &src.rollup_gsub_strategy {
        Some(st) => {
            let stc = chars_of(st.as_str());
            let mut ident: Vec<char> = Vec::new();
            push_quoted(&mut ident, if from_view {
                &mat
            } else {
                &base
            });
            let pat1 = chars_of("rollup(\"\\1\")");
            let pat2 = chars_of("\\1");
            let once = replace_chars(&stc, &pat1, &ident);
            return replace_chars(&once, &pat2, &mat);
        },
        None => {},
    }
    if chars_eq_str(&formula, "stats") {
        if !from_view {
            call_expr(&mut out, "spiral_stats(", &base, ") as ", &mat);
        } else {
            call_expr(&mut out, "spiral_stats_merge(", &mat, ") as ", &mat);
        }
    } else if chars_eq_str(&formula, "sketch") {
        if !from_view {
            call_expr(&mut out, "spiral_sketch(", &base, ") as ", &mat);
        } else {
            call_expr(&mut out, "spiral_sketch_merge(", &mat, ") as ", &mat);
        }
    } else if chars_eq_str(&formula, "tdigest") {
        if !from_view {
            call_expr(&mut out, "spiral_tdigest(", &base, ") as ", &mat);
        } else {
            call_expr(&mut out, "spiral_tdigest_merge(", &mat, ") as ", &mat);
        }
    } else if chars_eq_str(&formula, "ohlcv") {
        if !from_view {
            call_expr(&mut out, "spiral_ohlcv(", &base, ", spiral(t)) as ", &mat);
        } else {
            call_expr(&mut out, "spiral_ohlcv_merge(", &mat, ") as ", &mat);
        }
    } else if chars_eq_str(&formula, "range_max_end") || chars_eq_str(&formula, "range_merge") {
        if !from_view {
            push_str(&mut out, "date_part('epoch', max(");
            push_quoted(&mut out, &base);
            push_str(&mut out, ") - ");
            bucket_expr_exec(&mut out, anchor, fs);
            push_str(&mut out, ")::int4 as ");
            push_quoted(&mut out, &mat);
            proof {
                assert(out@ =~= "date_part('epoch', max("@ + quoted(base@) + ") - "@ + bucket_expr(anchor@, fs as int)
                    + ")::int4 as "@ + quoted(mat@));
            }
        } else {
            call_expr(&mut out, "max(", &mat, ") as ", &mat);
        }
    } else {
        let agg: &str = if chars_eq_str(&formula, "min") {
            "min"
        } else if chars_eq_str(&formula, "max") {
            "max"
        } else if chars_eq_str(&formula, "count") && !from_view {
            "count"
        } else {
            "sum"
        };
        push_str(&mut out, agg);
        push_str(&mut out, "(");
        push_quoted(&mut out, if from_view {
            &mat
        } else {
            &base
        });
        push_str(&mut out, ") as ");
        push_quoted(&mut out, &mat);
        proof {
            assert(agg@ == plain_aggregate(formula@, from_view));
            assert(out@ =~= plain_aggregate(formula@, from_view) + "("@ + quoted(if from_view {
                mat@
            } else {
                base@
            }) + ") as "@ + quoted(mat@));
        }
    }
    out
}

pub(crate) fn copy_source(s: &SourceDef) -> (r: SourceDef)
    ensures
        source_view(r) == source_view(*s),
{
    SourceDef {
        base_column: s.base_column.clone(),
        formula: s.formula.clone(),
        mat_column: s.mat_column.clone(),
        rollup_gsub_strategy: match &s.rollup_gsub_strategy {
            Some(x) => Some(x.clone()),
            None => None,
        },
    }
}

proof fn lemma_sources_view_push(v: Seq<SourceDef>, x: SourceDef)
    ensures
        sources_view(v.push(x)) == sources_view(v).push(source_view(x)),
{
    assert(sources_view(v.push(x)) =~= sources_view(v).push(source_view(x)));
}

fn copy_sources(v: &Vec<SourceDef>) -> (r: Vec<SourceDef>)
    ensures
        sources_view(r@) == sources_view(v@),
{
    let mut out: Vec<SourceDef> = Vec::new();
    let n = v.len();
    let mut i: usize = 0;
    proof {
        assert(sources_view(out@) =~= sources_view(v@).take(0));
    }
    while i < n
        invariant
            n == v@.len(),
            i <= n,
            sources_view(out@) == sources_view(v@).take(i as int),
        decreases n - i,
    {
        let c = copy_source(&v[i]);
        proof {
            lemma_sources_view_push(out@, c);
            assert(sources_view(v@).take(i + 1) =~= sources_view(v@).take(i as int).push(sources_view(v@)[i as int]));
        }
        out.push(c);
        i = i + 1;
    }
    proof {
        assert(sources_view(v@).take(n as int) =~= sources_view(v@));
    }
    out
}

pub(crate) fn scope_contains(scope: &Vec<String>, col: &String) -> (r: bool)
    ensures
        r == strings_view(scope@).contains(col@),
{
    let n = scope.len();
    let mut i: usize = 0;
    while i < n
        invariant
            n == scope@.len(),
            i <= n,
            forall|j: int| 0 <= j < i ==> strings_view(scope@)[j] != col@,
        decreases n - i,
    {
        if scope[i] == *col {
            proof {
                assert(strings_view(scope@)[i as int] == col@);
            }
            return true;
        }
        i = i + 1;
    }
    false
}

pub(crate) proof fn lemma_seqs_view_push(v: Seq<Vec<char>>, x: Vec<char>)
    ensures
        seqs_view(v.push(x)) == seqs_view(v).push(x@),
{
    assert(seqs_view(v.push(x)) =~= seqs_view(v).push(x@));
}

/// Appends each name double-quoted (after trimming, with `trim`).
pub fn quoted_all(out: &mut Vec<Vec<char>>, scope: &Vec<String>, trim: bool)
    ensures
        seqs_view(final(out)@) == seqs_view(old(out)@) + quoted_list(strings_view(scope@), trim),
{
    let ghost start = seqs_view(out@);
    let ghost sv = strings_view(scope@);
    let n = scope.len();
    let mut i: usize = 0;
    proof {
        assert(sv.take(0) =~= Seq::<Seq<char>>::empty());
        assert(seqs_view(out@) =~= start + quoted_list(sv.take(0), trim));
    }
    while i < n
        invariant
            n == scope@.len(),
            sv == strings_view(scope@),
            i <= n,
            seqs_view(out@) == start + quoted_list(sv.take(i as int), trim),
        decreases n - i,
    {
        let c = chars_of(scope[i].as_str());
        let body = if trim {
            trim_chars(&c)
        } else {
            c
        };
        let mut q: Vec<char> = Vec::new();
        push_quoted(&mut q, &body);
        proof {
            lemma_seqs_view_push(out@, q);
            assert(sv[i as int] == scope@[i as int]@);
            assert(sv.take(i + 1).drop_last() =~= sv.take(i as int));
            assert(seqs_view(out@).push(q@) =~= start + quoted_list(sv.take(i + 1), trim));
        }
        out.push(q);
        i = i + 1;
    }
    proof {
        assert(sv.take(n as int) =~= sv);
    }
}

/// Builds the statements that create the child tier `child_name` from
/// `parent_name` with buckets of `frame_seconds` (or calendar buckets when
/// `calendar_field` is set), grouped by time and the scope columns, and the
/// source definitions it is derived with. Each source column is
/// materialised by its rollup strategy when it has one, else by its formula
/// (merging states when the parent is itself a tier); without source
/// definitions every remaining column of the table is summed. The child is
/// indexed on time, or on its Z-order key when it has scope columns.
pub fn derive_child_sql(
    child_name: &str,
    parent_name: &str,
    frame_seconds: i32,
    scope_columns: &Vec<String>,
    calendar_field: Option<&str>,
    catalog: &ChildCatalog,
) -> (r: (String, Vec<SourceDef>))
    ensures
        r.0@ == child_sql_spec(
            child_name@,
            parent_name@,
            frame_seconds as int,
            strings_view(scope_columns@),
            opt_str(calendar_field),
            *catalog,
        ),
        sources_view(r.1@) == derived_sources(*catalog, strings_view(scope_columns@)),
{
    let ghost scope = strings_view(scope_columns@);
    let from_view = match catalog.parent_frame_seconds {
        Some(f) => f > 0,
        None => false,
    };
    let anchor: Vec<char> = if from_view {
        chars_of("t")
    } else {
        match &catalog.parent_time_column {
            Some(col) => chars_of(col.as_str()),
            None => chars_of("t"),
        }
    };
    proof {
        assert(anchor@ == anchor_column(*catalog));
    }
    let mut select_cols: Vec<Vec<char>> = Vec::new();
    let tsel = time_select_exec(calendar_field, &anchor, frame_seconds);
    select_cols.push(tsel);
    let mut group_by: Vec<Vec<char>> = Vec::new();
    let tgrp = time_group_exec(calendar_field, &anchor, frame_seconds);
    group_by.push(tgrp);
    proof {
        assert(seqs_view(select_cols@) =~= seq![tsel@]);
        assert(seqs_view(group_by@) =~= seq![tgrp@]);
    }
    quoted_all(&mut select_cols, scope_columns, false);
    quoted_all(&mut group_by, scope_columns, false);
    let ghost head = seqs_view(select_cols@);
    let use_child = catalog.child_exists && catalog.child_sources.len() > 0;
    let srcs: &Vec<SourceDef> = if use_child {
        &catalog.child_sources
    } else {
        &catalog.parent_sources
    };
    let ghost sv = sources_view(srcs@);
    proof {
        assert(sv == used_sources(*catalog));
    }
    let mut sources: Vec<SourceDef>;
    if srcs.len() > 0 {
        let n = srcs.len();
        let mut i: usize = 0;
        proof {
            assert(sv.take(0) =~= Seq::<(Seq<char>, Seq<char>, Seq<char>, Option<Seq<char>>)>::empty());
            assert(seqs_view(select_cols@) =~= head + source_selects(sv.take(0), from_view, anchor@, frame_seconds as int));
        }
        while i < n
            invariant
                n == srcs@.len(),
                sv == sources_view(srcs@),
                i <= n,
                seqs_view(select_cols@) == head + source_selects(sv.take(i as int), from_view, anchor@, frame_seconds as int),
            decreases n - i,
        {
            let e = source_select(&srcs[i], from_view, &anchor, frame_seconds);
            proof {
                lemma_seqs_view_push(select_cols@, e);
                assert(sv[i as int] == source_view(srcs@[i as int]));
                assert(sv.take(i + 1).drop_last() =~= sv.take(i as int));
                assert(seqs_view(select_cols@).push(e@) =~= head + source_selects(sv.take(i + 1), from_view, anchor@, frame_seconds as int));
            }
            select_cols.push(e);
            i = i + 1;
        }
        proof {
            assert(sv.take(n as int) =~= sv);
        }
        sources = copy_sources(srcs);
    } else {
        let cols: &Vec<String> = if catalog.child_exists {
            &catalog.child_columns
        } else {
            &catalog.parent_columns
        };
        let ghost cv = strings_view(cols@);
        sources = Vec::new();
        let n = cols.len();
        let mut i: usize = 0;
        proof {
            assert(cv.take(0) =~= Seq::<Seq<char>>::empty());
            assert(seqs_view(select_cols@) =~= head + sum_selects(non_scope_columns(cv.take(0), scope)));
            assert(sources_view(sources@) =~= sum_sources(non_scope_columns(cv.take(0), scope)));
        }
        while i < n
            invariant
                n == cols@.len(),
                cv == strings_view(cols@),
                i <= n,
                scope == strings_view(scope_columns@),
                seqs_view(select_cols@) == head + sum_selects(non_scope_columns(cv.take(i as int), scope)),
                sources_view(sources@) == sum_sources(non_scope_columns(cv.take(i as int), scope)),
            decreases n - i,
        {
            let col = &cols[i];
            let cc = chars_of(col.as_str());
            proof {
                assert(cv[i as int] == col@);
                assert(cv.take(i + 1).drop_last() =~= cv.take(i as int));
                assert(cv.take(i + 1).last() == col@);
            }
            if !chars_eq_str(&cc, "t") && !scope_contains(scope_columns, col) {
                let mut e: Vec<char> = Vec::new();
                call_expr(&mut e, "sum(", &cc, ") as ", &cc);
                let sd = SourceDef {
                    base_column: col.clone(),
                    formula: string_from_chars(&chars_of("sum")),
                    mat_column: col.clone(),
                    rollup_gsub_strategy: None,
                };
                proof {
                    lemma_seqs_view_push(select_cols@, e);
                    lemma_sources_view_push(sources@, sd);
                    let prev = non_scope_columns(cv.take(i as int), scope);
                    let next = non_scope_columns(cv.take(i + 1), scope);
                    assert(next == prev.push(col@));
                    assert(next.drop_last() =~= prev);
                    assert(e@ =~= "sum("@ + quoted(col@) + ") as "@ + quoted(col@));
                    assert(sum_selects(next) == sum_selects(prev).push(e@));
                    assert(source_view(sd) == (col@, "sum"@, col@, None::<Seq<char>>));
                    assert(sum_sources(next) == sum_sources(prev).push(source_view(sd)));
                    assert(seqs_view(select_cols@).push(e@) =~= head + sum_selects(next));
                }
                select_cols.push(e);
                sources.push(sd);
            } else {
                proof {
                    assert(non_scope_columns(cv.take(i + 1), scope) == non_scope_columns(cv.take(i as int), scope));
                }
            }
            i = i + 1;
        }
        proof {
            assert(cv.take(n as int) =~= cv);
        }
    }
    proof {
        assert(seqs_view(select_cols@) =~= select_cols_spec(*catalog, scope, frame_seconds as int, opt_str(calendar_field)));
    }
    let mut scoped: Vec<Vec<char>> = Vec::new();
    quoted_all(&mut scoped, scope_columns, true);
    proof {
        assert(seqs_view(scoped@) =~= quoted_list(scope, true));
    }
    let mut index: Vec<char> = Vec::new();
    let child = chars_of(child_name);
    if scope_columns.len() == 0 {
        push_str(&mut index, "CREATE UNIQUE INDEX IF NOT EXISTS idx_u_");
        push_chars(&mut index, &child);
        push_str(&mut index, " ON ");
        push_chars(&mut index, &child);
        push_str(&mut index, "(t)");
    } else {
        push_str(&mut index, "CREATE INDEX IF NOT EXISTS idx_z_");
        push_chars(&mut index, &child);
        push_str(&mut index, " ON ");
        push_chars(&mut index, &child);
        push_str(&mut index, " (\n                    spiral_zorder(spiral(t), ARRAY[");
        let joined = join_chars(&scoped, ", ");
        push_chars(&mut index, &joined);
        push_str(&mut index, "]::text[])\n                )");
    }
    proof {
        assert(index@ =~= child_index_spec(child_name@, scope));
    }
    proof {
        assert(seqs_view(group_by@) =~= seq![time_group_spec(opt_str(calendar_field), anchor_column(*catalog), frame_seconds as int)]
            + quoted_list(scope, false));
    }
    let mut sql: Vec<char> = Vec::new();
    push_str(&mut sql, "CREATE TABLE ");
    push_str(&mut sql, child_name);
    push_str(&mut sql, " AS\n             SELECT ");
    let sel = join_chars(&select_cols, ", ");
    push_chars(&mut sql, &sel);
    push_str(&mut sql, "\n             FROM ");
    push_str(&mut sql, parent_name);
    push_str(&mut sql, "\n             GROUP BY ");
    let grp = join_chars(&group_by, ", ");
    push_chars(&mut sql, &grp);
    push_str(&mut sql, ";\n             ");
    push_chars(&mut sql, &index);
    push_str(&mut sql, ";");
    proof {
        assert(sql@ =~= child_sql_spec(
            child_name@,
            parent_name@,
            frame_seconds as int,
            scope,
            opt_str(calendar_field),
            *catalog,
        ));
    }
    (string_from_chars(&sql), sources)
}

proof fn lemma_split_concat(a: Seq<char>, b: Seq<char>, sep: char)
    ensures
        split_spec(a + seq![sep] + b, sep) == split_spec(a, sep) + split_spec(b, sep),
    decreases b.len(),
{
    let s = a + seq![sep] + b;
    if b.len() == 0 {
        assert(s =~= (a + seq![sep]));
        assert((a + seq![sep]).drop_last() =~= a);
        assert(split_spec(b, sep) =~= seq![Seq::<char>::empty()]);
        assert(split_spec(a, sep).push(Seq::empty()) =~= split_spec(a, sep) + seq![Seq::<char>::empty()]);
    } else {
        lemma_split_concat(a, b.drop_last(), sep);
        assert(s.drop_last() =~= a + seq![sep] + b.drop_last());
        assert(s.last() == b.last());
        let x = split_spec(b.drop_last(), sep);
        crate::text::lemma_split_nonempty(b.drop_last(), sep);
        let pa = split_spec(a, sep);
        if b.last() == sep {
            assert((pa + x).push(Seq::empty()) =~= pa + x.push(Seq::empty()));
        } else {
            let prev = pa + x;
            assert(prev.last() == x.last());
            assert(prev.update(prev.len() - 1, prev.last().push(b.last())) =~= pa + x.update(
                x.len() - 1,
                x.last().push(b.last()),
            ));
        }
    }
}

proof fn lemma_frames_of_concat(p: Seq<Seq<char>>, q: Seq<Seq<char>>)
    ensures
        frames_of(p + q) == frames_of(p) + frames_of(q),
    decreases q.len(),
{
    if q.len() == 0 {
        assert(p + q =~= p);
        assert(frames_of(p) + frames_of(q) =~= frames_of(p));
    } else {
        lemma_frames_of_concat(p, q.drop_last());
        assert((p + q).drop_last() =~= p + q.drop_last());
        assert((p + q).last() == q.last());
        match frame_spec(trim_spec(q.last())) {
            Some(f) => {
                assert((frames_of(p) + frames_of(q.drop_last())).push(f) =~= frames_of(p) + frames_of(q.drop_last()).push(f));
            },
            None => {},
        }
    }
}

/// Law: the frames of `a,b` are the frames of `a` followed by the frames of
/// `b`: the entries of a list are read independently and kept in order.
pub proof fn lemma_parse_frames_concat(a: Seq<char>, b: Seq<char>)
    ensures
        frames_of(split_spec(a + ","@ + b, ',')) == frames_of(split_spec(a, ',')) + frames_of(split_spec(b, ',')),
{
    reveal_strlit(",");
    assert(a + ","@ + b =~= a + seq![','] + b);
    lemma_split_concat(a, b, ',');
    lemma_frames_of_concat(split_spec(a, ','), split_spec(b, ','));
}

/// Law: a `min` or `max` source keeps its own aggregate at every tier: the
/// child applies that same aggregate whether it reads the base table's
/// column or the parent tier's materialised column, so rolling up a tier of
/// maxima (or minima) gives the maximum (minimum) of the base rows.
pub proof fn lemma_min_max_roll_up_with_themselves(
    base: Seq<char>,
    formula: Seq<char>,
    mat: Seq<char>,
    anchor: Seq<char>,
    fs: int,
)
    requires
        formula == "min"@ || formula == "max"@,
    ensures
        source_select_spec((base, formula, mat, None), false, anchor, fs) == formula + "("@ + quoted(base) + ") as "@ + quoted(mat),
        source_select_spec((base, formula, mat, None), true, anchor, fs) == formula + "("@ + quoted(mat) + ") as "@ + quoted(mat),
{
    reveal_strlit("min");
    reveal_strlit("max");
    reveal_strlit("stats");
    reveal_strlit("sketch");
    reveal_strlit("tdigest");
    reveal_strlit("ohlcv");
    reveal_strlit("range_max_end");
    reveal_strlit("range_merge");
    assert(formula.len() == 3);
    assert("stats"@.len() == 5 && "sketch"@.len() == 6 && "tdigest"@.len() == 7 && "ohlcv"@.len() == 5);
    assert("range_max_end"@.len() == 13 && "range_merge"@.len() == 11);
    assert(formula != "stats"@ && formula != "sketch"@ && formula != "tdigest"@ && formula != "ohlcv"@);
    assert(formula != "range_max_end"@ && formula != "range_merge"@);
}

/// Law: rolling a tier up from a parent tier merges a state-family source
/// (`stats`, `sketch`, `tdigest`, `ohlcv`) with its own family's merge
/// aggregate over the parent's materialised column, while from the base
/// table it builds the state with that family's own aggregate.
pub proof fn lemma_states_roll_up_within_family(
    base: Seq<char>,
    f: Seq<char>,
    mat: Seq<char>,
    anchor: Seq<char>,
    fs: int,
)
    requires
        f == "stats"@ || f == "sketch"@ || f == "tdigest"@ || f == "ohlcv"@,
    ensures
        source_select_spec((base, f, mat, None), true, anchor, fs) == "spiral_"@ + f + "_merge("@ + quoted(mat) + ") as "@
            + quoted(mat),
        f != "ohlcv"@ ==> source_select_spec((base, f, mat, None), false, anchor, fs) == "spiral_"@ + f + "("@ + quoted(base)
            + ") as "@ + quoted(mat),
{
    reveal_strlit("stats");
    reveal_strlit("sketch");
    reveal_strlit("tdigest");
    reveal_strlit("ohlcv");
    reveal_strlit("spiral_");
    reveal_strlit("_merge(");
    reveal_strlit("(");
    reveal_strlit("spiral_stats_merge(");
    reveal_strlit("spiral_sketch_merge(");
    reveal_strlit("spiral_tdigest_merge(");
    reveal_strlit("spiral_ohlcv_merge(");
    reveal_strlit("spiral_stats(");
    reveal_strlit("spiral_sketch(");
    reveal_strlit("spiral_tdigest(");
    assert("stats"@.len() == 5 && "sketch"@.len() == 6 && "tdigest"@.len() == 7 && "ohlcv"@.len() == 5);
    assert("stats"@[0] == 's' && "ohlcv"@[0] == 'o');
    assert(source_select_spec((base, f, mat, None), true, anchor, fs) =~= "spiral_"@ + f + "_merge("@ + quoted(mat) + ") as "@
        + quoted(mat));
    if f != "ohlcv"@ {
        assert(source_select_spec((base, f, mat, None), false, anchor, fs) =~= "spiral_"@ + f + "("@ + quoted(base) + ") as "@
            + quoted(mat));
    }
}

} // verus!
