//! Decoder for the CSV feed: one header line, then one record per line, each
//! a snapshot (level lists as quoted JSON arrays) or an incremental update.
//!
//! Snapshot record:
//! `snapshot,<exchange>,<symbol>,<timestamp>,,"[[p,s],...]","[[p,s],...]",,`
//! Incremental record:
//! `incremental,<exchange>,<symbol>,<timestamp>,bid|ask,,,<price>,<size>`

use vstd::prelude::*;
use vstd::slice::slice_subrange;
use crate::decimal::{all_digits, digits_value, is_decimal, scaled_decimal};
use crate::types::{Level, Price, Qty, Side, Timestamp, Update, UpdateModel, opt_update_view, qty_units};

verus! {

/// Position of the first newline at or after `pos`, or the end of `data`
/// (or `pos` itself when it is past the end).
pub open spec fn next_newline(data: Seq<u8>, pos: int) -> int
    decreases data.len() - pos,
{
    if 0 <= pos < data.len() && data[pos] != 10 {
        next_newline(data, pos + 1)
    } else {
        pos
    }
}

/// Find the position of the next newline at or after `pos`, or the end of
/// `data`.
pub fn find_newline(data: &[u8], pos: usize) -> (r: usize)
    ensures
        r == next_newline(data@, pos as int),
        pos <= r,
        r == pos || r <= data@.len(),
{
    let mut p: usize = pos;
    while p < data.len() && data[p] != 10
        invariant
            pos <= p,
            p == pos || p <= data@.len(),
            next_newline(data@, p as int) == next_newline(data@, pos as int),
        decreases data@.len() - p,
    {
        p += 1;
    }
    p
}

/// The position just past the end of the line that holds `pos`.
pub fn skip_line(data: &[u8], pos: usize) -> (r: usize)
    requires
        pos < usize::MAX,
        data@.len() < usize::MAX,
    ensures
        r == next_newline(data@, pos as int) + 1,
{
    find_newline(data, pos) + 1
}

/// Digits read with wrapping arithmetic: each byte's offset from `'0'`
/// (modulo 256) is added to ten times the value so far, modulo `2^64`.
pub open spec fn wrapping_digits(s: Seq<u8>) -> u64
    decreases s.len(),
{
    if s.len() == 0 {
        0
    } else {
        (((wrapping_digits(s.drop_last()) as int * 10) % 0x1_0000_0000_0000_0000 + (s.last() as int
            - 48) % 256) % 0x1_0000_0000_0000_0000) as u64
    }
}

/// Read `bytes` as decimal digits without any check, wrapping on overflow.
/// On digits whose value fits in a `u64`, this is that value.
#[verifier::rlimit(40)]
pub fn parse_u64_fast(bytes: &[u8]) -> (r: u64)
    ensures
        r == wrapping_digits(bytes@),
        all_digits(bytes@) && digits_value(bytes@) <= u64::MAX ==> r == digits_value(bytes@),
{
    let mut result: u64 = 0;
    let mut i: usize = 0;
    while i < bytes.len()
        invariant
            i <= bytes@.len(),
            result == wrapping_digits(bytes@.subrange(0, i as int)),
        decreases bytes@.len() - i,
    {
        let b = bytes[i];
        proof {
            assert(bytes@.subrange(0, i + 1).drop_last() =~= bytes@.subrange(0, i as int));
        }
        result = result.wrapping_mul(10).wrapping_add(b.wrapping_sub(48) as u64);
        i += 1;
    }
    proof {
        assert(bytes@.subrange(0, bytes@.len() as int) =~= bytes@);
        lemma_wrapping_exact(bytes@);
    }
    result
}

/// On digits whose value fits, the wrapping reading is exact.
proof fn lemma_wrapping_exact(s: Seq<u8>)
    ensures
        all_digits(s) && digits_value(s) <= u64::MAX ==> wrapping_digits(s) == digits_value(s),
    decreases s.len(),
{
    if s.len() > 0 && all_digits(s) && digits_value(s) <= u64::MAX {
        let t = s.drop_last();
        assert(all_digits(t)) by {
            assert forall|i: int| 0 <= i < t.len() implies crate::decimal::is_digit(#[trigger] t[i]) by {
                assert(t[i] == s[i]);
            }
        }
        assert(crate::decimal::is_digit(s[s.len() - 1]));
        lemma_wrapping_exact(t);
    }
}

/// Number of double quotes among the first `i` bytes of `s`.
pub open spec fn quotes_before(s: Seq<u8>, i: int) -> nat
    decreases i,
{
    if i <= 0 {
        0
    } else {
        quotes_before(s, i - 1) + if s[i - 1] == 34 {
            1nat
        } else {
            0nat
        }
    }
}

/// The byte at `i` is a comma outside any quoted run.
pub open spec fn is_separator(s: Seq<u8>, i: int) -> bool {
    s[i] == 44 && quotes_before(s, i) % 2 == 0
}

/// The fields of the first `n` bytes of `s`, as half-open byte ranges split
/// at every separator.
pub open spec fn csv_spans(s: Seq<u8>, n: nat) -> Seq<(int, int)>
    decreases n,
{
    if n == 0 {
        seq![(0int, 0int)]
    } else {
        let prev = csv_spans(s, (n - 1) as nat);
        let last = prev.len() - 1;
        if is_separator(s, n - 1) {
            prev.update(last, (prev[last].0, n - 1)).push((n as int, n as int))
        } else {
            prev.update(last, (prev[last].0, n as int))
        }
    }
}

/// The fields of a whole line.
pub open spec fn line_spans(s: Seq<u8>) -> Seq<(int, int)> {
    csv_spans(s, s.len())
}

/// The bytes of field `k` of `s`.
pub open spec fn field(s: Seq<u8>, k: int) -> Seq<u8> {
    s.subrange(line_spans(s)[k].0, line_spans(s)[k].1)
}

/// Byte ranges as integer pairs.
pub open spec fn spans_view(v: Seq<(usize, usize)>) -> Seq<(int, int)> {
    v.map_values(|p: (usize, usize)| (p.0 as int, p.1 as int))
}

proof fn lemma_csv_spans_shape(s: Seq<u8>, n: nat)
    requires
        n <= s.len(),
    ensures
        csv_spans(s, n).len() >= 1,
        csv_spans(s, n).last().1 == n,
        forall|k: int|
            0 <= k < csv_spans(s, n).len() ==> 0 <= #[trigger] csv_spans(s, n)[k].0 <= csv_spans(
                s,
                n,
            )[k].1 <= n,
    decreases n,
{
    if n > 0 {
        lemma_csv_spans_shape(s, (n - 1) as nat);
    }
}

/// Split a line into fields at commas that stand outside double quotes;
/// returns each field's byte range.
pub fn parse_csv_fields(s: &[u8]) -> (r: Vec<(usize, usize)>)
    ensures
        spans_view(r@) == line_spans(s@),
{
    let mut fields: Vec<(usize, usize)> = Vec::new();
    let mut start: usize = 0;
    let mut in_quotes: bool = false;
    let mut i: usize = 0;
    while i < s.len()
        invariant
            i <= s@.len(),
            start <= i,
            spans_view(fields@).push((start as int, i as int)) == csv_spans(s@, i as nat),
            in_quotes == (quotes_before(s@, i as int) % 2 == 1),
        decreases s@.len() - i,
    {
        let b = s[i];
        let ghost prev = csv_spans(s@, i as nat);
        proof {
            lemma_csv_spans_shape(s@, i as nat);
        }
        if b == 34 {
            in_quotes = !in_quotes;
        } else if b == 44 && !in_quotes {
            fields.push((start, i));
            start = i + 1;
        }
        i += 1;
        proof {
            assert(spans_view(fields@).push((start as int, i as int)) =~= csv_spans(s@, i as nat));
        }
    }
    fields.push((start, s.len()));
    proof {
        assert(spans_view(fields@) =~= csv_spans(s@, s@.len()));
    }
    fields
}

/// The side a field names: `b` followed by at least two more bytes is the
/// bid side, anything else the ask side.
pub open spec fn side_of(f: Seq<u8>) -> Side {
    if f.len() >= 3 && f[0] == 98 {
        Side::Bid
    } else {
        Side::Ask
    }
}

/// The update an incremental record gives: at least nine fields, the
/// timestamp in field 3 (an unsigned integer that fits), the side in field 4,
/// the price in field 7 and the size in field 8, both of them decimals that
/// fit; none otherwise.
pub open spec fn incremental_of(line: Seq<u8>) -> Option<Update> {
    if line_spans(line).len() < 9 {
        None
    } else {
        let price = field(line, 7);
        let size = field(line, 8);
        if plain_u64_of(field(line, 3)) is Some && is_decimal(price) && scaled_decimal(price, 2)
            <= u64::MAX && is_decimal(size) && scaled_decimal(size, 8) <= u64::MAX {
            Some(
                Update::Incremental {
                    timestamp: plain_u64_of(field(line, 3))->0,
                    side: side_of(field(line, 4)),
                    level: Level {
                        price: Price(scaled_decimal(price, 2) as u64),
                        qty: Qty(qty_units(size)),
                    },
                },
            )
        } else {
            None
        }
    }
}

/// Decode an incremental record.
pub fn parse_incremental_line(line: &[u8]) -> (r: Option<Update>)
    ensures
        r == incremental_of(line@),
{
    let spans = parse_csv_fields(line);
    if spans.len() < 9 {
        return None;
    }
    proof {
        lemma_csv_spans_shape(line@, line@.len());
        assert(spans@[3].0 as int == line_spans(line@)[3].0);
        assert(spans@[3].1 as int == line_spans(line@)[3].1);
        assert(spans@[4].0 as int == line_spans(line@)[4].0);
        assert(spans@[4].1 as int == line_spans(line@)[4].1);
        assert(spans@[7].0 as int == line_spans(line@)[7].0);
        assert(spans@[7].1 as int == line_spans(line@)[7].1);
        assert(spans@[8].0 as int == line_spans(line@)[8].0);
        assert(spans@[8].1 as int == line_spans(line@)[8].1);
    }
    let (a, b) = spans[3];
    let timestamp: Timestamp = match parse_u64_plain(slice_subrange(line, a, b)) {
        Some(t) => t,
        None => {
            return None;
        },
    };
    let (a, b) = spans[4];
    let side = if b - a >= 3 && line[a] == 98 {
        Side::Bid
    } else {
        Side::Ask
    };
    let (a, b) = spans[7];
    let price = Price::from_decimal(slice_subrange(line, a, b));
    let (a, b) = spans[8];
    let qty = Qty::from_decimal(slice_subrange(line, a, b));
    match (price, qty) {
        (Some(price), Some(qty)) => Some(Update::Incremental { timestamp, side, level: Level { price, qty } }),
        _ => None,
    }
}

/// A timestamp field: an optional `+` and then one or more digits whose
/// value fits in a `u64`.
pub open spec fn plain_u64_of(s: Seq<u8>) -> Option<u64> {
    let d = if s.len() > 0 && s[0] == 43 {
        s.drop_first()
    } else {
        s
    };
    if d.len() >= 1 && all_digits(d) && digits_value(d) <= u64::MAX {
        Some(digits_value(d) as u64)
    } else {
        None
    }
}

/// Read an unsigned integer: an optional `+` and one or more digits, none
/// when anything else stands there or the value does not fit in a `u64`.
pub fn parse_u64_plain(s: &[u8]) -> (r: Option<u64>)
    ensures
        r == plain_u64_of(s@),
{
    let start: usize = if s.len() > 0 && s[0] == 43 {
        1
    } else {
        0
    };
    let d = slice_subrange(s, start, s.len());
    proof {
        if start == 1 {
            assert(d@ =~= s@.drop_first());
        } else {
            assert(d@ =~= s@);
        }
    }
    if d.len() == 0 {
        return None;
    }
    let mut value: u64 = 0;
    let mut i: usize = 0;
    while i < d.len()
        invariant
            i <= d@.len(),
            d@ == (if s@.len() > 0 && s@[0] == 43 {
                s@.drop_first()
            } else {
                s@
            }),
            all_digits(d@.subrange(0, i as int)),
            value == digits_value(d@.subrange(0, i as int)),
        decreases d@.len() - i,
    {
        let b = d[i];
        if b < 48 || b > 57 {
            proof {
                assert(!crate::decimal::is_digit(d@[i as int]));
            }
            return None;
        }
        proof {
            assert(d@.subrange(0, i + 1).drop_last() =~= d@.subrange(0, i as int));
            assert(d@.subrange(0, i + 1) =~= d@.subrange(0, i as int).push(b));
        }
        let next = match value.checked_mul(10) {
            Some(v) => v.checked_add((b - 48) as u64),
            None => None,
        };
        match next {
            Some(v) => {
                value = v;
            },
            None => {
                proof {
                    crate::decimal::lemma_digits_prefix(d@, i + 1, d@.len() as int);
                    assert(d@.subrange(0, d@.len() as int) =~= d@);
                }
                return None;
            },
        }
        i += 1;
    }
    proof {
        assert(d@.subrange(0, d@.len() as int) =~= d@);
    }
    Some(value)
}

/// End of the run of double quotes of `s` that starts at `i`.
pub open spec fn quote_run_end(s: Seq<u8>, i: int) -> int
    decreases s.len() - i,
{
    if 0 <= i < s.len() && s[i] == 34 {
        quote_run_end(s, i + 1)
    } else {
        i
    }
}

/// Start of the run of double quotes of `s` that ends at `j`, not before `lo`.
pub open spec fn quote_run_start(s: Seq<u8>, j: int, lo: int) -> int
    decreases j - lo,
{
    if lo < j && 0 < j <= s.len() && s[j - 1] == 34 {
        quote_run_start(s, j - 1, lo)
    } else {
        j
    }
}

/// `s` without its leading and trailing double quotes.
pub open spec fn trim_quotes_of(s: Seq<u8>) -> Seq<u8> {
    let a = quote_run_end(s, 0);
    s.subrange(a, quote_run_start(s, s.len() as int, a))
}

/// Strip every leading and trailing double quote.
pub fn trim_quotes(s: &[u8]) -> (r: &[u8])
    ensures
        r@ == trim_quotes_of(s@),
{
    let mut a: usize = 0;
    while a < s.len() && s[a] == 34
        invariant
            a <= s@.len(),
            quote_run_end(s@, a as int) == quote_run_end(s@, 0),
        decreases s@.len() - a,
    {
        a += 1;
    }
    let mut b: usize = s.len();
    while b > a && s[b - 1] == 34
        invariant
            a <= b <= s@.len(),
            quote_run_start(s@, b as int, a as int) == quote_run_start(s@, s@.len() as int, a as int),
        decreases b - a,
    {
        b -= 1;
    }
    slice_subrange(s, a, b)
}

/// A name for what serde_json reads from `s` taken as a JSON array of arrays
/// of numbers: each number as the text serde_json keeps for it, or none when
/// `s` is not such an array.
pub uninterp spec fn json_number_rows(s: Seq<u8>) -> Option<Seq<Seq<Seq<u8>>>>;

/// Rows of number texts as sequences.
pub open spec fn rows_view(v: Seq<Vec<Vec<u8>>>) -> Seq<Seq<Seq<u8>>> {
    v.map_values(|row: Vec<Vec<u8>>| row@.map_values(|x: Vec<u8>| x@))
}

/// Relies on serde_json::from_slice into `Vec<Vec<Number>>`, and on
/// Number::as_str (feature arbitrary_precision) for the text of each number:
/// the result depends on the bytes alone.
#[verifier::external_body]
fn json_rows(s: &[u8]) -> (r: Option<Vec<Vec<Vec<u8>>>>)
    ensures
        match r {
            Some(rows) => json_number_rows(s@) == Some(rows_view(rows@)),
            None => json_number_rows(s@) is None,
        },
{
    match serde_json::from_slice::<Vec<Vec<serde_json::Number>>>(s) {
        Ok(rows) => Some(
            rows.iter().map(|row| row.iter().map(|n| n.as_str().as_bytes().to_vec()).collect()).collect(),
        ),
        Err(_) => None,
    }
}

/// The level a row of number texts gives: price first, size second, both
/// decimals that fit; none otherwise.
pub open spec fn row_level(row: Seq<Seq<u8>>) -> Option<Level> {
    if row.len() >= 2 && is_decimal(row[0]) && scaled_decimal(row[0], 2) <= u64::MAX && is_decimal(
        row[1],
    ) && scaled_decimal(row[1], 8) <= u64::MAX {
        Some(
            Level {
                price: Price(scaled_decimal(row[0], 2) as u64),
                qty: Qty(qty_units(row[1])),
            },
        )
    } else {
        None
    }
}

/// The levels of all rows, none when any row gives none.
pub open spec fn rows_levels(rows: Seq<Seq<Seq<u8>>>) -> Option<Seq<Level>>
    decreases rows.len(),
{
    if rows.len() == 0 {
        Some(Seq::empty())
    } else {
        match (rows_levels(rows.drop_last()), row_level(rows.last())) {
            (Some(ls), Some(l)) => Some(ls.push(l)),
            _ => None,
        }
    }
}

/// An optional level list as a sequence.
pub open spec fn opt_levels_view(r: Option<Vec<Level>>) -> Option<Seq<Level>> {
    match r {
        Some(v) => Some(v@),
        None => None,
    }
}

proof fn lemma_rows_levels_none(rows: Seq<Seq<Seq<u8>>>, i: int, j: int)
    requires
        0 <= i <= j <= rows.len(),
        rows_levels(rows.subrange(0, i)) is None,
    ensures
        rows_levels(rows.subrange(0, j)) is None,
    decreases j - i,
{
    if i < j {
        lemma_rows_levels_none(rows, i, j - 1);
        assert(rows.subrange(0, j).drop_last() =~= rows.subrange(0, j - 1));
    }
}

/// Turn rows of number texts into levels: each row's first text is the
/// price, its second the size. None when a row is shorter or a text is not
/// a decimal that fits.
pub fn levels_from_json_rows(rows: &Vec<Vec<Vec<u8>>>) -> (r: Option<Vec<Level>>)
    ensures
        opt_levels_view(r) == rows_levels(rows_view(rows@)),
{
    let ghost all = rows_view(rows@);
    let mut out: Vec<Level> = Vec::new();
    let mut i: usize = 0;
    while i < rows.len()
        invariant
            i <= rows@.len(),
            all == rows_view(rows@),
            rows_levels(all.subrange(0, i as int)) == Some(out@),
        decreases rows@.len() - i,
    {
        let row = &rows[i];
        proof {
            assert(all.subrange(0, i + 1).drop_last() =~= all.subrange(0, i as int));
            assert(all[i as int] == row@.map_values(|x: Vec<u8>| x@));
        }
        if row.len() < 2 {
            proof {
                lemma_rows_levels_none(all, i + 1, all.len() as int);
                assert(all.subrange(0, all.len() as int) =~= all);
            }
            return None;
        }
        let price = Price::from_decimal(row[0].as_slice());
        let qty = Qty::from_decimal(row[1].as_slice());
        match (price, qty) {
            (Some(price), Some(qty)) => {
                out.push(Level { price, qty });
            },
            _ => {
                proof {
                    lemma_rows_levels_none(all, i + 1, all.len() as int);
                    assert(all.subrange(0, all.len() as int) =~= all);
                }
                return None;
            },
        }
        i += 1;
    }
    proof {
        assert(all.subrange(0, all.len() as int) =~= all);
    }
    Some(out)
}

/// The levels of a JSON array of `[price, size]` pairs.
pub open spec fn json_levels(s: Seq<u8>) -> Option<Seq<Level>> {
    match json_number_rows(s) {
        Some(rows) => rows_levels(rows),
        None => None,
    }
}

/// Decode a JSON array of `[price, size]` pairs into levels.
pub fn parse_levels_json(s: &[u8]) -> (r: Option<Vec<Level>>)
    ensures
        opt_levels_view(r) == json_levels(s@),
{
    match json_rows(s) {
        Some(rows) => levels_from_json_rows(&rows),
        None => None,
    }
}

/// A name for whether `s` is well-formed UTF-8, as std reads it.
pub uninterp spec fn utf8_valid(s: Seq<u8>) -> bool;

/// Relies on std::str::from_utf8: whether the bytes are valid UTF-8 depends
/// on the bytes alone.
#[verifier::external_body]
fn is_utf8(s: &[u8]) -> (r: bool)
    ensures
        r == utf8_valid(s@),
{
    std::str::from_utf8(s).is_ok()
}

/// The update a snapshot record gives: valid UTF-8, at least seven fields, the timestamp
/// in field 3, the bid and ask arrays in fields 5 and 6 (with their quotes
/// stripped); none when any of them does not read.
pub open spec fn snapshot_of(line: Seq<u8>) -> Option<UpdateModel> {
    if !utf8_valid(line) || line_spans(line).len() < 7 {
        None
    } else {
        match (
            plain_u64_of(field(line, 3)),
            json_levels(trim_quotes_of(field(line, 5))),
            json_levels(trim_quotes_of(field(line, 6))),
        ) {
            (Some(timestamp), Some(bids), Some(asks)) => Some(
                UpdateModel::Snapshot { timestamp, bids, asks },
            ),
            _ => None,
        }
    }
}

/// Decode a snapshot record.
pub fn parse_snapshot_line(line: &[u8]) -> (r: Option<Update>)
    ensures
        opt_update_view(r) == snapshot_of(line@),
{
    if !is_utf8(line) {
        return None;
    }
    let spans = parse_csv_fields(line);
    if spans.len() < 7 {
        return None;
    }
    proof {
        lemma_csv_spans_shape(line@, line@.len());
        assert(spans@[3].0 as int == line_spans(line@)[3].0);
        assert(spans@[3].1 as int == line_spans(line@)[3].1);
        assert(spans@[5].0 as int == line_spans(line@)[5].0);
        assert(spans@[5].1 as int == line_spans(line@)[5].1);
        assert(spans@[6].0 as int == line_spans(line@)[6].0);
        assert(spans@[6].1 as int == line_spans(line@)[6].1);
    }
    let (a, b) = spans[3];
    let timestamp: Timestamp = match parse_u64_plain(slice_subrange(line, a, b)) {
        Some(t) => t,
        None => {
            return None;
        },
    };
    let (a, b) = spans[5];
    let bids = match parse_levels_json(trim_quotes(slice_subrange(line, a, b))) {
        Some(v) => v,
        None => {
            return None;
        },
    };
    let (a, b) = spans[6];
    let asks = match parse_levels_json(trim_quotes(slice_subrange(line, a, b))) {
        Some(v) => v,
        None => {
            return None;
        },
    };
    Some(Update::Snapshot { timestamp, bids, asks })
}

/// The update a record gives, by its first byte: `s` a snapshot, `i` an
/// incremental update; none for an empty line or any other first byte.
pub open spec fn line_update(line: Seq<u8>) -> Option<UpdateModel> {
    if line.len() == 0 {
        None
    } else if line[0] == 115 {
        snapshot_of(line)
    } else if line[0] == 105 {
        opt_update_view(incremental_of(line))
    } else {
        None
    }
}

/// Decode one record.
pub fn parse_line(line: &[u8]) -> (r: Option<Update>)
    ensures
        opt_update_view(r) == line_update(line@),
{
    if line.len() == 0 {
        return None;
    }
    if line[0] == 115 {
        parse_snapshot_line(line)
    } else if line[0] == 105 {
        parse_incremental_line(line)
    } else {
        None
    }
}

/// The updates of the lines of `data` from `pos` on: each line ends at a
/// newline or the end of the data, loses one trailing carriage return, and
/// is skipped when empty or when it does not decode.
pub open spec fn updates_from(data: Seq<u8>, pos: int) -> Seq<UpdateModel>
    decreases data.len() - pos,
{
    if pos < 0 || pos >= data.len() {
        Seq::empty()
    } else {
        let found = next_newline(data, pos);
        let nl = if found < pos {
            pos
        } else {
            found
        };
        let end = if nl > pos && data[nl - 1] == 13 {
            nl - 1
        } else {
            nl
        };
        let next = if nl < data.len() {
            nl + 1
        } else {
            data.len() as int
        };
        let rest = updates_from(data, next);
        if end <= pos {
            rest
        } else {
            match line_update(data.subrange(pos, end)) {
                Some(u) => seq![u] + rest,
                None => rest,
            }
        }
    }
}

/// The updates of a whole feed: every line after the header line.
pub open spec fn feed_updates(data: Seq<u8>) -> Seq<UpdateModel> {
    updates_from(data, next_newline(data, 0) + 1)
}

/// Updates as their abstract values.
pub open spec fn updates_view(v: Seq<Update>) -> Seq<UpdateModel> {
    v.map_values(|u: Update| u@)
}

/// Decode every record of a feed, skipping the header line, empty lines and
/// records that do not decode.
pub fn parse_all(data: &[u8]) -> (r: Vec<Update>)
    requires
        data@.len() < usize::MAX,
    ensures
        updates_view(r@) == feed_updates(data@),
{
    let mut updates: Vec<Update> = Vec::new();
    let first = skip_line(data, 0);
    let mut pos: usize = first;
    while pos < data.len()
        invariant
            data@.len() < usize::MAX,
            updates_view(updates@) + updates_from(data@, pos as int) == feed_updates(data@),
        decreases data@.len() - pos,
    {
        let line_start = pos;
        let newline_pos = find_newline(data, pos);
        let content_end = if newline_pos > line_start && data[newline_pos - 1] == 13 {
            newline_pos - 1
        } else {
            newline_pos
        };
        pos = if newline_pos < data.len() {
            newline_pos + 1
        } else {
            newline_pos
        };
        if content_end > line_start {
            let line = slice_subrange(data, line_start, content_end);
            match parse_line(line) {
                Some(update) => {
                    let ghost before = updates_view(updates@);
                    updates.push(update);
                    proof {
                        assert(updates_view(updates@) =~= before.push(update@));
                        assert(before.push(update@) + updates_from(data@, pos as int) =~= before + (
                        seq![update@] + updates_from(data@, pos as int)));
                    }
                },
                None => {},
            }
        }
    }
    proof {
        assert(updates_view(updates@) + updates_from(data@, pos as int) =~= updates_view(updates@));
    }
    updates
}

} // verus!
