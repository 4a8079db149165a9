//! The persisted document: one JSON object per store, holding its range
//! entries and their bars. The encoding is canonical, and parsing is proved
//! to invert it exactly, which gives the save/load round-trip law.

use vstd::prelude::*;
use vstd::utf8::{encode_utf8, is_ascii_chars, is_ascii_chars_encode_utf8};
use crate::bars::IBApiBar;
use crate::codec::{
    enc_int, dec_digits, is_digit, lit_at, spec_parse_i64, spec_parse_u64, lemma_parse_enc_i64,
    lemma_parse_enc_u64, lemma_dec_digits_are_digits,
};
use crate::store_model::{EntryModel, store_wf, entry_wf, pts_sorted};
use crate::interval_map::{IntervalEntry, IntervalModel, RangeDataStorage, ivs_model, ivs_wf};
use crate::range_store::{RangeEntry, RangeDataStore, entries_model};
use crate::codec::{push_i64, push_u64, push_lit, expect_lit, parse_i64_at, parse_u64_at};
use crate::keys::{StoreKey, StorePoint, lt_spec};
use crate::DataError;

verus! {

// ---------------------------------------------------------------------------
// The literal fragments of the document
// ---------------------------------------------------------------------------

#[verifier::opaque]
pub open spec fn l_bar_date() -> Seq<u8> {
    encode_utf8("{\"date\":"@)
}

#[verifier::opaque]
pub open spec fn l_bar_open() -> Seq<u8> {
    encode_utf8(",\"open\":"@)
}

#[verifier::opaque]
pub open spec fn l_bar_high() -> Seq<u8> {
    encode_utf8(",\"high\":"@)
}

#[verifier::opaque]
pub open spec fn l_bar_low() -> Seq<u8> {
    encode_utf8(",\"low\":"@)
}

#[verifier::opaque]
pub open spec fn l_bar_close() -> Seq<u8> {
    encode_utf8(",\"close\":"@)
}

#[verifier::opaque]
pub open spec fn l_bar_volume() -> Seq<u8> {
    encode_utf8(",\"volume\":"@)
}

#[verifier::opaque]
pub open spec fn l_bar_count() -> Seq<u8> {
    encode_utf8(",\"count\":"@)
}

#[verifier::opaque]
pub open spec fn l_bar_wap() -> Seq<u8> {
    encode_utf8(",\"wap\":"@)
}

#[verifier::opaque]
pub open spec fn l_rbrace() -> Seq<u8> {
    encode_utf8("}"@)
}

#[verifier::opaque]
pub open spec fn l_comma() -> Seq<u8> {
    encode_utf8(","@)
}

#[verifier::opaque]
pub open spec fn l_entry_start() -> Seq<u8> {
    encode_utf8("{\"start\":"@)
}

#[verifier::opaque]
pub open spec fn l_entry_end() -> Seq<u8> {
    encode_utf8(",\"end\":"@)
}

#[verifier::opaque]
pub open spec fn l_entry_data() -> Seq<u8> {
    encode_utf8(",\"data\":["@)
}

#[verifier::opaque]
pub open spec fn l_bracket_brace() -> Seq<u8> {
    encode_utf8("]}"@)
}

#[verifier::opaque]
pub open spec fn l_doc_open() -> Seq<u8> {
    encode_utf8("{\"entries\":["@)
}

#[verifier::opaque]
pub open spec fn l_iv_value() -> Seq<u8> {
    encode_utf8(",\"value\":"@)
}

#[verifier::opaque]
pub open spec fn l_iv_doc_open() -> Seq<u8> {
    encode_utf8("{\"ranges\":["@)
}

/// The byte shapes of the literal fragments: each is non-empty ASCII, the
/// fragments that follow a number begin with a byte that is no digit, and
/// the fragments that open and close a list begin with distinct bytes.
#[verifier::rlimit(100)]
pub proof fn lemma_lit_facts()
    ensures
        l_bar_date().len() == 8 && l_bar_date()[0] == 123,
        l_bar_open().len() >= 1 && l_bar_open()[0] == 44 && !is_digit(l_bar_open()[0]),
        l_bar_high().len() >= 1 && l_bar_high()[0] == 44 && !is_digit(l_bar_high()[0]),
        l_bar_low().len() >= 1 && l_bar_low()[0] == 44 && !is_digit(l_bar_low()[0]),
        l_bar_close().len() >= 1 && l_bar_close()[0] == 44 && !is_digit(l_bar_close()[0]),
        l_bar_volume().len() >= 1 && l_bar_volume()[0] == 44 && !is_digit(l_bar_volume()[0]),
        l_bar_count().len() >= 1 && l_bar_count()[0] == 44 && !is_digit(l_bar_count()[0]),
        l_bar_wap().len() >= 1 && l_bar_wap()[0] == 44 && !is_digit(l_bar_wap()[0]),
        l_rbrace().len() == 1 && l_rbrace()[0] == 125 && !is_digit(l_rbrace()[0]),
        l_comma().len() == 1 && l_comma()[0] == 44,
        l_entry_start().len() == 9 && l_entry_start()[0] == 123,
        l_entry_end().len() >= 1 && l_entry_end()[0] == 44 && !is_digit(l_entry_end()[0]),
        l_entry_data().len() >= 1 && l_entry_data()[0] == 44 && !is_digit(l_entry_data()[0]),
        l_bracket_brace().len() == 2 && l_bracket_brace()[0] == 93 && !is_digit(
            l_bracket_brace()[0],
        ),
        l_doc_open().len() == 12 && l_doc_open()[0] == 123,
        l_iv_value().len() >= 1 && l_iv_value()[0] == 44 && !is_digit(l_iv_value()[0]),
        l_iv_doc_open().len() == 11 && l_iv_doc_open()[0] == 123,
{
    reveal(l_iv_value);
    reveal(l_iv_doc_open);
    reveal(l_bar_date);
    reveal(l_bar_open);
    reveal(l_bar_high);
    reveal(l_bar_low);
    reveal(l_bar_close);
    reveal(l_bar_volume);
    reveal(l_bar_count);
    reveal(l_bar_wap);
    reveal(l_rbrace);
    reveal(l_comma);
    reveal(l_entry_start);
    reveal(l_entry_end);
    reveal(l_entry_data);
    reveal(l_bracket_brace);
    reveal(l_doc_open);
    reveal_strlit("{\"date\":");
    reveal_strlit(",\"open\":");
    reveal_strlit(",\"high\":");
    reveal_strlit(",\"low\":");
    reveal_strlit(",\"close\":");
    reveal_strlit(",\"volume\":");
    reveal_strlit(",\"count\":");
    reveal_strlit(",\"wap\":");
    reveal_strlit("}");
    reveal_strlit(",");
    reveal_strlit("{\"start\":");
    reveal_strlit(",\"end\":");
    reveal_strlit(",\"data\":[");
    reveal_strlit("]}");
    reveal_strlit("{\"entries\":[");
    assert(is_ascii_chars("{\"date\":"@));
    is_ascii_chars_encode_utf8("{\"date\":"@);
    assert(is_ascii_chars(",\"open\":"@));
    is_ascii_chars_encode_utf8(",\"open\":"@);
    assert(is_ascii_chars(",\"high\":"@));
    is_ascii_chars_encode_utf8(",\"high\":"@);
    assert(is_ascii_chars(",\"low\":"@));
    is_ascii_chars_encode_utf8(",\"low\":"@);
    assert(is_ascii_chars(",\"close\":"@));
    is_ascii_chars_encode_utf8(",\"close\":"@);
    assert(is_ascii_chars(",\"volume\":"@));
    is_ascii_chars_encode_utf8(",\"volume\":"@);
    assert(is_ascii_chars(",\"count\":"@));
    is_ascii_chars_encode_utf8(",\"count\":"@);
    assert(is_ascii_chars(",\"wap\":"@));
    is_ascii_chars_encode_utf8(",\"wap\":"@);
    assert(is_ascii_chars("}"@));
    is_ascii_chars_encode_utf8("}"@);
    assert(is_ascii_chars(","@));
    is_ascii_chars_encode_utf8(","@);
    assert(is_ascii_chars("{\"start\":"@));
    is_ascii_chars_encode_utf8("{\"start\":"@);
    assert(is_ascii_chars(",\"end\":"@));
    is_ascii_chars_encode_utf8(",\"end\":"@);
    assert(is_ascii_chars(",\"data\":["@));
    is_ascii_chars_encode_utf8(",\"data\":["@);
    assert(is_ascii_chars("]}"@));
    is_ascii_chars_encode_utf8("]}"@);
    assert(is_ascii_chars("{\"entries\":["@));
    is_ascii_chars_encode_utf8("{\"entries\":["@);
    reveal_strlit(",\"value\":");
    assert(is_ascii_chars(",\"value\":"@));
    is_ascii_chars_encode_utf8(",\"value\":"@);
    reveal_strlit("{\"ranges\":[");
    assert(is_ascii_chars("{\"ranges\":["@));
    is_ascii_chars_encode_utf8("{\"ranges\":["@);
}

// ---------------------------------------------------------------------------
// Encoding
// ---------------------------------------------------------------------------

/// The bar fields from `open` on, each a literal plus a number.
pub open spec fn bt_wap(x: IBApiBar) -> Seq<u8> {
    l_bar_wap() + enc_int(x.wap as int) + l_rbrace()
}

pub open spec fn bt_count(x: IBApiBar) -> Seq<u8> {
    l_bar_count() + enc_int(x.count as int) + bt_wap(x)
}

pub open spec fn bt_volume(x: IBApiBar) -> Seq<u8> {
    l_bar_volume() + enc_int(x.volume as int) + bt_count(x)
}

pub open spec fn bt_close(x: IBApiBar) -> Seq<u8> {
    l_bar_close() + enc_int(x.close as int) + bt_volume(x)
}

pub open spec fn bt_low(x: IBApiBar) -> Seq<u8> {
    l_bar_low() + enc_int(x.low as int) + bt_close(x)
}

pub open spec fn bt_high(x: IBApiBar) -> Seq<u8> {
    l_bar_high() + enc_int(x.high as int) + bt_low(x)
}

pub open spec fn bt_open(x: IBApiBar) -> Seq<u8> {
    l_bar_open() + enc_int(x.open as int) + bt_high(x)
}

/// One bar as a JSON object.
#[verifier::opaque]
pub open spec fn enc_bar(x: IBApiBar) -> Seq<u8> {
    l_bar_date() + enc_int(x.date as int) + bt_open(x)
}

/// A non-empty comma-separated run of bars.
pub open spec fn enc_bar_items(s: Seq<IBApiBar>) -> Seq<u8>
    decreases s.len(),
{
    if s.len() <= 1 {
        if s.len() == 0 {
            Seq::empty()
        } else {
            enc_bar(s[0])
        }
    } else {
        enc_bar(s[0]) + l_comma() + enc_bar_items(s.skip(1))
    }
}

/// The data array of an entry, closing the entry object.
pub open spec fn et_data(e: EntryModel<i64, IBApiBar>) -> Seq<u8> {
    l_entry_data() + enc_bar_items(e.data) + l_bracket_brace()
}

pub open spec fn et_end(e: EntryModel<i64, IBApiBar>) -> Seq<u8> {
    l_entry_end() + enc_int(e.end as int) + et_data(e)
}

/// One stored range as a JSON object; its data array closes the object.
#[verifier::opaque]
pub open spec fn enc_entry(e: EntryModel<i64, IBApiBar>) -> Seq<u8> {
    l_entry_start() + enc_int(e.start as int) + et_end(e)
}

/// A non-empty comma-separated run of entries.
pub open spec fn enc_entry_items(v: Seq<EntryModel<i64, IBApiBar>>) -> Seq<u8>
    decreases v.len(),
{
    if v.len() <= 1 {
        if v.len() == 0 {
            Seq::empty()
        } else {
            enc_entry(v[0])
        }
    } else {
        enc_entry(v[0]) + l_comma() + enc_entry_items(v.skip(1))
    }
}

/// The whole persisted document.
pub open spec fn enc_store_doc(v: Seq<EntryModel<i64, IBApiBar>>) -> Seq<u8> {
    l_doc_open() + enc_entry_items(v) + l_bracket_brace()
}

// ---------------------------------------------------------------------------
// Parsing
// ---------------------------------------------------------------------------

/// A literal followed by a signed number.
pub open spec fn after_lit_i64(b: Seq<u8>, lit: Seq<u8>) -> Option<(i64, int)> {
    if lit_at(b, lit) {
        match spec_parse_i64(b.skip(lit.len() as int)) {
            None => None,
            Some((v, n)) => Some((v, lit.len() + n)),
        }
    } else {
        None
    }
}

/// A literal followed by an unsigned number.
pub open spec fn after_lit_u64(b: Seq<u8>, lit: Seq<u8>) -> Option<(u64, int)> {
    if lit_at(b, lit) {
        match spec_parse_u64(b.skip(lit.len() as int)) {
            None => None,
            Some((v, n)) => Some((v, lit.len() + n)),
        }
    } else {
        None
    }
}

/// The tail of a bar object from its `wap` field on, given the fields
/// already read.
pub open spec fn spec_parse_bt_wap(
    b: Seq<u8>,
    date: i64,
    open: u64,
    high: u64,
    low: u64,
    close: u64,
    volume: u64,
    count: i32,
) -> Option<(IBApiBar, int)> {
    match after_lit_u64(b, l_bar_wap()) {
        None => None,
        Some((wap, p)) => if lit_at(b.skip(p), l_rbrace()) {
            Some(
                (
                    IBApiBar { date, open, high, low, close, volume, count, wap },
                    p + l_rbrace().len(),
                ),
            )
        } else {
            None
        },
    }
}

pub open spec fn spec_parse_bt_count(
    b: Seq<u8>,
    date: i64,
    open: u64,
    high: u64,
    low: u64,
    close: u64,
    volume: u64,
) -> Option<(IBApiBar, int)> {
    match after_lit_i64(b, l_bar_count()) {
        None => None,
        Some((c, p)) => if c < i32::MIN as i64 || c > i32::MAX as i64 {
            None
        } else {
            match spec_parse_bt_wap(b.skip(p), date, open, high, low, close, volume, c as i32) {
                None => None,
                Some((bar, m)) => Some((bar, p + m)),
            }
        },
    }
}

pub open spec fn spec_parse_bt_volume(
    b: Seq<u8>,
    date: i64,
    open: u64,
    high: u64,
    low: u64,
    close: u64,
) -> Option<(IBApiBar, int)> {
    match after_lit_u64(b, l_bar_volume()) {
        None => None,
        Some((volume, p)) => match spec_parse_bt_count(b.skip(p), date, open, high, low, close, volume) {
            None => None,
            Some((bar, m)) => Some((bar, p + m)),
        },
    }
}

pub open spec fn spec_parse_bt_close(
    b: Seq<u8>,
    date: i64,
    open: u64,
    high: u64,
    low: u64,
) -> Option<(IBApiBar, int)> {
    match after_lit_u64(b, l_bar_close()) {
        None => None,
        Some((close, p)) => match spec_parse_bt_volume(b.skip(p), date, open, high, low, close) {
            None => None,
            Some((bar, m)) => Some((bar, p + m)),
        },
    }
}

pub open spec fn spec_parse_bt_low(b: Seq<u8>, date: i64, open: u64, high: u64) -> Option<
    (IBApiBar, int),
> {
    match after_lit_u64(b, l_bar_low()) {
        None => None,
        Some((low, p)) => match spec_parse_bt_close(b.skip(p), date, open, high, low) {
            None => None,
            Some((bar, m)) => Some((bar, p + m)),
        },
    }
}

pub open spec fn spec_parse_bt_high(b: Seq<u8>, date: i64, open: u64) -> Option<(IBApiBar, int)> {
    match after_lit_u64(b, l_bar_high()) {
        None => None,
        Some((high, p)) => match spec_parse_bt_low(b.skip(p), date, open, high) {
            None => None,
            Some((bar, m)) => Some((bar, p + m)),
        },
    }
}

pub open spec fn spec_parse_bt_open(b: Seq<u8>, date: i64) -> Option<(IBApiBar, int)> {
    match after_lit_u64(b, l_bar_open()) {
        None => None,
        Some((open, p)) => match spec_parse_bt_high(b.skip(p), date, open) {
            None => None,
            Some((bar, m)) => Some((bar, p + m)),
        },
    }
}

/// One bar object at the head of `b`: the bar and the bytes consumed.
pub open spec fn spec_parse_bar(b: Seq<u8>) -> Option<(IBApiBar, int)> {
    match after_lit_i64(b, l_bar_date()) {
        None => None,
        Some((date, p)) => match spec_parse_bt_open(b.skip(p), date) {
            None => None,
            Some((bar, m)) => Some((bar, p + m)),
        },
    }
}

/// A non-empty comma-separated run of bars at the head of `b`.
pub open spec fn spec_parse_bar_items(b: Seq<u8>) -> Option<(Seq<IBApiBar>, int)>
    decreases b.len(),
{
    match spec_parse_bar(b) {
        None => None,
        Some((x, n)) => if !(1 <= n <= b.len()) {
            None
        } else if n < b.len() && b[n] == 44 {
            match spec_parse_bar_items(b.skip(n + 1)) {
                None => None,
                Some((xs, m)) => Some((seq![x] + xs, n + 1 + m)),
            }
        } else {
            Some((seq![x], n))
        },
    }
}

/// One entry object at the head of `b`.
pub open spec fn spec_parse_entry(b: Seq<u8>) -> Option<(EntryModel<i64, IBApiBar>, int)> {
    match after_lit_i64(b, l_entry_start()) {
        None => None,
        Some((start, p1)) => match after_lit_i64(b.skip(p1), l_entry_end()) {
            None => None,
            Some((endv, n2)) => {
                let p2 = p1 + n2;
                if lit_at(b.skip(p2), l_entry_data()) {
                    let q = p2 + l_entry_data().len();
                    if lit_at(b.skip(q), l_bracket_brace()) {
                        Some(
                            (
                                EntryModel { start, end: endv, data: Seq::empty() },
                                q + l_bracket_brace().len(),
                            ),
                        )
                    } else {
                        match spec_parse_bar_items(b.skip(q)) {
                            None => None,
                            Some((xs, m)) => if m < 0 {
                                None
                            } else if lit_at(b.skip(q + m), l_bracket_brace()) {
                                Some(
                                    (
                                        EntryModel { start, end: endv, data: xs },
                                        q + m + l_bracket_brace().len(),
                                    ),
                                )
                            } else {
                                None
                            },
                        }
                    }
                } else {
                    None
                }
            },
        },
    }
}

/// A non-empty comma-separated run of entries at the head of `b`.
pub open spec fn spec_parse_entry_items(b: Seq<u8>) -> Option<
    (Seq<EntryModel<i64, IBApiBar>>, int),
>
    decreases b.len(),
{
    match spec_parse_entry(b) {
        None => None,
        Some((x, n)) => if !(1 <= n <= b.len()) {
            None
        } else if n < b.len() && b[n] == 44 {
            match spec_parse_entry_items(b.skip(n + 1)) {
                None => None,
                Some((xs, m)) => Some((seq![x] + xs, n + 1 + m)),
            }
        } else {
            Some((seq![x], n))
        },
    }
}

/// The whole document: `None` unless `b` is exactly one well-shaped
/// document.
pub open spec fn spec_parse_doc(b: Seq<u8>) -> Option<Seq<EntryModel<i64, IBApiBar>>> {
    if lit_at(b, l_doc_open()) {
        let q = l_doc_open().len() as int;
        if lit_at(b.skip(q), l_bracket_brace()) {
            if q + l_bracket_brace().len() == b.len() {
                Some(Seq::empty())
            } else {
                None
            }
        } else {
            match spec_parse_entry_items(b.skip(q)) {
                None => None,
                Some((es, m)) => if 0 <= m && lit_at(b.skip(q + m), l_bracket_brace()) && q + m
                    + l_bracket_brace().len() == b.len() {
                    Some(es)
                } else {
                    None
                },
            }
        }
    } else {
        None
    }
}

// ---------------------------------------------------------------------------
// Parsing inverts encoding
// ---------------------------------------------------------------------------

/// A literal-plus-signed-number field parses back to its value.
pub proof fn lemma_field_i64(b: Seq<u8>, lit: Seq<u8>, v: i64, tail: Seq<u8>)
    requires
        b == lit + enc_int(v as int) + tail,
        tail.len() == 0 || !is_digit(tail[0]),
    ensures
        after_lit_i64(b, lit) == Some::<(i64, int)>(
            (v, lit.len() + enc_int(v as int).len() as int),
        ),
        b.skip(lit.len() + enc_int(v as int).len() as int) == tail,
{
    assert(b.take(lit.len() as int) =~= lit);
    assert(b.skip(lit.len() as int) =~= enc_int(v as int) + tail);
    lemma_parse_enc_i64(v, tail);
    assert(b.skip(lit.len() + enc_int(v as int).len() as int) =~= tail);
}

/// A literal-plus-unsigned-number field parses back to its value.
pub proof fn lemma_field_u64(b: Seq<u8>, lit: Seq<u8>, v: u64, tail: Seq<u8>)
    requires
        b == lit + enc_int(v as int) + tail,
        tail.len() == 0 || !is_digit(tail[0]),
    ensures
        after_lit_u64(b, lit) == Some::<(u64, int)>(
            (v, lit.len() + enc_int(v as int).len() as int),
        ),
        b.skip(lit.len() + enc_int(v as int).len() as int) == tail,
{
    assert(b.take(lit.len() as int) =~= lit);
    assert(enc_int(v as int) == dec_digits(v as nat));
    assert(b.skip(lit.len() as int) =~= dec_digits(v as nat) + tail);
    lemma_parse_enc_u64(v, tail);
    assert(b.skip(lit.len() + enc_int(v as int).len() as int) =~= tail);
}

/// A bar encoding followed by anything parses back to the bar.
pub proof fn lemma_parse_bt_wap(x: IBApiBar, rest: Seq<u8>)
    ensures
        spec_parse_bt_wap(
            bt_wap(x) + rest,
            x.date,
            x.open,
            x.high,
            x.low,
            x.close,
            x.volume,
            x.count,
        ) == Some::<(IBApiBar, int)>((x, bt_wap(x).len() as int)),
{
    lemma_lit_facts();
    let b = bt_wap(x) + rest;
    assert(b =~= l_bar_wap() + enc_int(x.wap as int) + (l_rbrace() + rest));
    assert((l_rbrace() + rest)[0] == l_rbrace()[0]);
    lemma_field_u64(b, l_bar_wap(), x.wap, l_rbrace() + rest);
    let p = l_bar_wap().len() + enc_int(x.wap as int).len() as int;
    assert(b.skip(p).take(l_rbrace().len() as int) =~= l_rbrace());
    assert(lit_at(b.skip(p), l_rbrace()));
    assert(IBApiBar {
        date: x.date,
        open: x.open,
        high: x.high,
        low: x.low,
        close: x.close,
        volume: x.volume,
        count: x.count,
        wap: x.wap,
    } == x);
}

pub proof fn lemma_parse_bt_count(x: IBApiBar, rest: Seq<u8>)
    ensures
        spec_parse_bt_count(bt_count(x) + rest, x.date, x.open, x.high, x.low, x.close, x.volume)
            == Some::<(IBApiBar, int)>((x, bt_count(x).len() as int)),
{
    lemma_lit_facts();
    let b = bt_count(x) + rest;
    assert(b =~= l_bar_count() + enc_int(x.count as int) + (bt_wap(x) + rest));
    assert((bt_wap(x) + rest)[0] == l_bar_wap()[0]);
    assert(enc_int(x.count as i64 as int) == enc_int(x.count as int));
    lemma_field_i64(b, l_bar_count(), x.count as i64, bt_wap(x) + rest);
    let p = l_bar_count().len() + enc_int(x.count as int).len() as int;
    assert(b.skip(p) == bt_wap(x) + rest);
    lemma_parse_bt_wap(x, rest);
    assert(x.count as i64 as i32 == x.count);
}

pub proof fn lemma_parse_bt_volume(x: IBApiBar, rest: Seq<u8>)
    ensures
        spec_parse_bt_volume(bt_volume(x) + rest, x.date, x.open, x.high, x.low, x.close)
            == Some::<(IBApiBar, int)>((x, bt_volume(x).len() as int)),
{
    lemma_lit_facts();
    let b = bt_volume(x) + rest;
    assert(b =~= l_bar_volume() + enc_int(x.volume as int) + (bt_count(x) + rest));
    assert((bt_count(x) + rest)[0] == l_bar_count()[0]);
    lemma_field_u64(b, l_bar_volume(), x.volume, bt_count(x) + rest);
    lemma_parse_bt_count(x, rest);
}

pub proof fn lemma_parse_bt_close(x: IBApiBar, rest: Seq<u8>)
    ensures
        spec_parse_bt_close(bt_close(x) + rest, x.date, x.open, x.high, x.low) == Some::<
            (IBApiBar, int),
        >((x, bt_close(x).len() as int)),
{
    lemma_lit_facts();
    let b = bt_close(x) + rest;
    assert(b =~= l_bar_close() + enc_int(x.close as int) + (bt_volume(x) + rest));
    assert((bt_volume(x) + rest)[0] == l_bar_volume()[0]);
    lemma_field_u64(b, l_bar_close(), x.close, bt_volume(x) + rest);
    lemma_parse_bt_volume(x, rest);
}

pub proof fn lemma_parse_bt_low(x: IBApiBar, rest: Seq<u8>)
    ensures
        spec_parse_bt_low(bt_low(x) + rest, x.date, x.open, x.high) == Some::<(IBApiBar, int)>(
            (x, bt_low(x).len() as int),
        ),
{
    lemma_lit_facts();
    let b = bt_low(x) + rest;
    assert(b =~= l_bar_low() + enc_int(x.low as int) + (bt_close(x) + rest));
    assert((bt_close(x) + rest)[0] == l_bar_close()[0]);
    lemma_field_u64(b, l_bar_low(), x.low, bt_close(x) + rest);
    lemma_parse_bt_close(x, rest);
}

pub proof fn lemma_parse_bt_high(x: IBApiBar, rest: Seq<u8>)
    ensures
        spec_parse_bt_high(bt_high(x) + rest, x.date, x.open) == Some::<(IBApiBar, int)>(
            (x, bt_high(x).len() as int),
        ),
{
    lemma_lit_facts();
    let b = bt_high(x) + rest;
    assert(b =~= l_bar_high() + enc_int(x.high as int) + (bt_low(x) + rest));
    assert((bt_low(x) + rest)[0] == l_bar_low()[0]);
    lemma_field_u64(b, l_bar_high(), x.high, bt_low(x) + rest);
    lemma_parse_bt_low(x, rest);
}

pub proof fn lemma_parse_bt_open(x: IBApiBar, rest: Seq<u8>)
    ensures
        spec_parse_bt_open(bt_open(x) + rest, x.date) == Some::<(IBApiBar, int)>(
            (x, bt_open(x).len() as int),
        ),
{
    lemma_lit_facts();
    let b = bt_open(x) + rest;
    assert(b =~= l_bar_open() + enc_int(x.open as int) + (bt_high(x) + rest));
    assert((bt_high(x) + rest)[0] == l_bar_high()[0]);
    lemma_field_u64(b, l_bar_open(), x.open, bt_high(x) + rest);
    lemma_parse_bt_high(x, rest);
}

/// A bar encoding opens like its first literal.
pub proof fn lemma_enc_bar_facts(x: IBApiBar)
    ensures
        enc_bar(x).len() >= 1,
        enc_bar(x)[0] == l_bar_date()[0],
{
    reveal(enc_bar);
    lemma_lit_facts();
}

/// A bar encoding followed by anything parses back to the bar.
pub proof fn lemma_parse_enc_bar(x: IBApiBar, rest: Seq<u8>)
    ensures
        spec_parse_bar(enc_bar(x) + rest) == Some::<(IBApiBar, int)>(
            (x, enc_bar(x).len() as int),
        ),
{
    reveal(enc_bar);
    lemma_lit_facts();
    let b = enc_bar(x) + rest;
    assert(b =~= l_bar_date() + enc_int(x.date as int) + (bt_open(x) + rest));
    assert((bt_open(x) + rest)[0] == l_bar_open()[0]);
    lemma_field_i64(b, l_bar_date(), x.date, bt_open(x) + rest);
    lemma_parse_bt_open(x, rest);
}

/// A run of bar encodings followed by no comma parses back to the run.
#[verifier::rlimit(100)]
pub proof fn lemma_parse_enc_bar_items(s: Seq<IBApiBar>, rest: Seq<u8>)
    requires
        s.len() >= 1,
        rest.len() == 0 || rest[0] != 44,
    ensures
        spec_parse_bar_items(enc_bar_items(s) + rest) == Some::<(Seq<IBApiBar>, int)>(
            (s, enc_bar_items(s).len() as int),
        ),
    decreases s.len(),
{
    lemma_lit_facts();
    lemma_enc_bar_facts(s[0]);
    let b = enc_bar_items(s) + rest;
    if s.len() == 1 {
        assert(enc_bar_items(s) == enc_bar(s[0]));
        lemma_parse_enc_bar(s[0], rest);
        let n = enc_bar(s[0]).len() as int;
        assert(n >= 1);
        if n < b.len() {
            assert(b[n] == rest[0]);
        }
        assert(seq![s[0]] =~= s);
    } else {
        assert(enc_bar_items(s) == enc_bar(s[0]) + l_comma() + enc_bar_items(s.skip(1)));
        let tail = l_comma() + enc_bar_items(s.skip(1)) + rest;
        assert(b =~= enc_bar(s[0]) + tail);
        lemma_parse_enc_bar(s[0], tail);
        let n = enc_bar(s[0]).len() as int;
        assert(n >= 1);
        assert(b[n] == tail[0]);
        assert(tail[0] == 44);
        assert(b.skip(n + 1) =~= enc_bar_items(s.skip(1)) + rest);
        lemma_parse_enc_bar_items(s.skip(1), rest);
        assert(seq![s[0]] + s.skip(1) =~= s);
        assert(n + 1 + enc_bar_items(s.skip(1)).len() == enc_bar_items(s).len());
    }
}

/// An entry encoding followed by anything parses back to the entry.
#[verifier::rlimit(100)]
/// An entry encoding opens like its first literal.
pub proof fn lemma_enc_entry_facts(e: EntryModel<i64, IBApiBar>)
    ensures
        enc_entry(e).len() >= 1,
        enc_entry(e)[0] == l_entry_start()[0],
{
    reveal(enc_entry);
    lemma_lit_facts();
}

#[verifier::rlimit(100)]
pub proof fn lemma_parse_enc_entry(e: EntryModel<i64, IBApiBar>, rest: Seq<u8>)
    ensures
        spec_parse_entry(enc_entry(e) + rest) == Some::<(EntryModel<i64, IBApiBar>, int)>(
            (e, enc_entry(e).len() as int),
        ),
{
    reveal(enc_entry);
    lemma_lit_facts();
    let b = enc_entry(e) + rest;
    assert(b =~= l_entry_start() + enc_int(e.start as int) + (et_end(e) + rest));
    assert((et_end(e) + rest)[0] == l_entry_end()[0]);
    lemma_field_i64(b, l_entry_start(), e.start, et_end(e) + rest);
    let p1 = l_entry_start().len() + enc_int(e.start as int).len() as int;
    let b1 = b.skip(p1);
    assert(b1 =~= l_entry_end() + enc_int(e.end as int) + (et_data(e) + rest));
    assert((et_data(e) + rest)[0] == l_entry_data()[0]);
    lemma_field_i64(b1, l_entry_end(), e.end, et_data(e) + rest);
    let n2 = l_entry_end().len() + enc_int(e.end as int).len() as int;
    let p2 = p1 + n2;
    assert(b1.skip(n2) =~= b.skip(p2));
    assert(b.skip(p2) =~= et_data(e) + rest);
    assert(b.skip(p2).take(l_entry_data().len() as int) =~= l_entry_data());
    assert(lit_at(b.skip(p2), l_entry_data()));
    let q = p2 + l_entry_data().len();
    assert(b.skip(p2).skip(l_entry_data().len() as int) =~= b.skip(q));
    assert(b.skip(q) =~= enc_bar_items(e.data) + (l_bracket_brace() + rest));
    if e.data.len() == 0 {
        assert(enc_bar_items(e.data) == Seq::<u8>::empty());
        assert(b.skip(q) =~= l_bracket_brace() + rest);
        assert(b.skip(q).take(l_bracket_brace().len() as int) =~= l_bracket_brace());
        assert(lit_at(b.skip(q), l_bracket_brace()));
        assert(q + l_bracket_brace().len() == enc_entry(e).len());
        assert(e.data =~= Seq::<IBApiBar>::empty());
        assert(EntryModel::<i64, IBApiBar> { start: e.start, end: e.end, data: Seq::empty() }
            == e);
    } else {
        // the data list is non-empty, so it does not open with `]`
        assert(enc_bar_items(e.data).len() > 0) by {
            lemma_enc_bar_facts(e.data[0]);
            if e.data.len() == 1 {
                assert(enc_bar_items(e.data) == enc_bar(e.data[0]));
            }
        }
        assert(enc_bar_items(e.data)[0] == l_bar_date()[0]) by {
            lemma_enc_bar_facts(e.data[0]);
            if e.data.len() == 1 {
                assert(enc_bar_items(e.data) == enc_bar(e.data[0]));
            } else {
                assert(enc_bar_items(e.data)[0] == enc_bar(e.data[0])[0]);
            }
        }
        assert(b.skip(q)[0] == enc_bar_items(e.data)[0]);
        assert(!lit_at(b.skip(q), l_bracket_brace())) by {
            if lit_at(b.skip(q), l_bracket_brace()) {
                assert(b.skip(q).take(l_bracket_brace().len() as int)[0] == b.skip(q)[0]);
            }
        }
        lemma_parse_enc_bar_items(e.data, l_bracket_brace() + rest);
        let m = enc_bar_items(e.data).len() as int;
        assert(b.skip(q).skip(m) =~= b.skip(q + m));
        assert(b.skip(q + m) =~= l_bracket_brace() + rest);
        assert(b.skip(q + m).take(l_bracket_brace().len() as int) =~= l_bracket_brace());
        assert(lit_at(b.skip(q + m), l_bracket_brace()));
        assert(q + m + l_bracket_brace().len() == enc_entry(e).len());
        assert(EntryModel::<i64, IBApiBar> { start: e.start, end: e.end, data: e.data } == e);
    }
}

/// A run of entry encodings followed by no comma parses back to the run.
#[verifier::rlimit(100)]
pub proof fn lemma_parse_enc_entry_items(v: Seq<EntryModel<i64, IBApiBar>>, rest: Seq<u8>)
    requires
        v.len() >= 1,
        rest.len() == 0 || rest[0] != 44,
    ensures
        spec_parse_entry_items(enc_entry_items(v) + rest) == Some::<
            (Seq<EntryModel<i64, IBApiBar>>, int),
        >((v, enc_entry_items(v).len() as int)),
    decreases v.len(),
{
    lemma_lit_facts();
    lemma_enc_entry_facts(v[0]);
    let b = enc_entry_items(v) + rest;
    if v.len() == 1 {
        assert(enc_entry_items(v) == enc_entry(v[0]));
        lemma_parse_enc_entry(v[0], rest);
        let n = enc_entry(v[0]).len() as int;
        assert(n >= 1);
        if n < b.len() {
            assert(b[n] == rest[0]);
        }
        assert(seq![v[0]] =~= v);
    } else {
        assert(enc_entry_items(v) == enc_entry(v[0]) + l_comma() + enc_entry_items(v.skip(1)));
        let tail = l_comma() + enc_entry_items(v.skip(1)) + rest;
        assert(b =~= enc_entry(v[0]) + tail);
        lemma_parse_enc_entry(v[0], tail);
        let n = enc_entry(v[0]).len() as int;
        assert(n >= 1);
        assert(b[n] == tail[0]);
        assert(tail[0] == 44);
        assert(b.skip(n + 1) =~= enc_entry_items(v.skip(1)) + rest);
        lemma_parse_enc_entry_items(v.skip(1), rest);
        assert(seq![v[0]] + v.skip(1) =~= v);
        assert(n + 1 + enc_entry_items(v.skip(1)).len() == enc_entry_items(v).len());
    }
}

/// The round-trip law of the document: parsing an encoded store yields
/// exactly the encoded entries.
#[verifier::rlimit(100)]
pub proof fn lemma_parse_enc_doc(v: Seq<EntryModel<i64, IBApiBar>>)
    ensures
        spec_parse_doc(enc_store_doc(v)) == Some(v),
{
    lemma_lit_facts();
    let b = enc_store_doc(v);
    let q = l_doc_open().len() as int;
    assert(b.take(q) =~= l_doc_open());
    assert(lit_at(b, l_doc_open()));
    if v.len() == 0 {
        assert(enc_entry_items(v) == Seq::<u8>::empty());
        assert(b.skip(q) =~= l_bracket_brace());
        assert(b.skip(q).take(l_bracket_brace().len() as int) =~= l_bracket_brace());
        assert(lit_at(b.skip(q), l_bracket_brace()));
        assert(q + l_bracket_brace().len() == b.len());
        assert(Seq::<EntryModel<i64, IBApiBar>>::empty() =~= v);
    } else {
        assert(b.skip(q) =~= enc_entry_items(v) + l_bracket_brace());
        assert(enc_entry_items(v).len() > 0) by {
            lemma_enc_entry_facts(v[0]);
            if v.len() == 1 {
                assert(enc_entry_items(v) == enc_entry(v[0]));
            }
        }
        assert(enc_entry_items(v)[0] == l_entry_start()[0]) by {
            lemma_enc_entry_facts(v[0]);
            if v.len() == 1 {
                assert(enc_entry_items(v) == enc_entry(v[0]));
            } else {
                assert(enc_entry_items(v)[0] == enc_entry(v[0])[0]);
            }
        }
        assert(!lit_at(b.skip(q), l_bracket_brace())) by {
            if lit_at(b.skip(q), l_bracket_brace()) {
                assert(b.skip(q).take(l_bracket_brace().len() as int)[0] == b.skip(q)[0]);
                assert(b.skip(q)[0] == enc_entry_items(v)[0]);
            }
        }
        lemma_parse_enc_entry_items(v, l_bracket_brace());
        let m = enc_entry_items(v).len() as int;
        assert(b.skip(q).skip(m) =~= b.skip(q + m));
        assert(b.skip(q + m) =~= l_bracket_brace());
        assert(b.skip(q + m).take(l_bracket_brace().len() as int) =~= l_bracket_brace());
        assert(lit_at(b.skip(q + m), l_bracket_brace()));
        assert(q + m + l_bracket_brace().len() == b.len());
    }
}

// ---------------------------------------------------------------------------
// Writing
// ---------------------------------------------------------------------------

/// The literal spec fragments are the byte sequences the writer emits.
proof fn lemma_lit_defs()
    ensures
        l_bar_date() == encode_utf8("{\"date\":"@),
        l_bar_open() == encode_utf8(",\"open\":"@),
        l_bar_high() == encode_utf8(",\"high\":"@),
        l_bar_low() == encode_utf8(",\"low\":"@),
        l_bar_close() == encode_utf8(",\"close\":"@),
        l_bar_volume() == encode_utf8(",\"volume\":"@),
        l_bar_count() == encode_utf8(",\"count\":"@),
        l_bar_wap() == encode_utf8(",\"wap\":"@),
        l_rbrace() == encode_utf8("}"@),
        l_comma() == encode_utf8(","@),
        l_entry_start() == encode_utf8("{\"start\":"@),
        l_entry_end() == encode_utf8(",\"end\":"@),
        l_entry_data() == encode_utf8(",\"data\":["@),
        l_bracket_brace() == encode_utf8("]}"@),
        l_doc_open() == encode_utf8("{\"entries\":["@),
{
    reveal(l_bar_date);
    reveal(l_bar_open);
    reveal(l_bar_high);
    reveal(l_bar_low);
    reveal(l_bar_close);
    reveal(l_bar_volume);
    reveal(l_bar_count);
    reveal(l_bar_wap);
    reveal(l_rbrace);
    reveal(l_comma);
    reveal(l_entry_start);
    reveal(l_entry_end);
    reveal(l_entry_data);
    reveal(l_bracket_brace);
    reveal(l_doc_open);
}

fn push_bt_wap(out: &mut Vec<u8>, x: &IBApiBar)
    ensures
        final(out)@ == old(out)@ + bt_wap(*x),
{
    push_lit(out, ",\"wap\":");
    push_u64(out, x.wap);
    push_lit(out, "}");
    proof {
        lemma_lit_defs();
        assert(enc_int(x.wap as int) == dec_digits(x.wap as nat));
        assert(out@ =~= old(out)@ + bt_wap(*x));
    }
}

fn push_bt_count(out: &mut Vec<u8>, x: &IBApiBar)
    ensures
        final(out)@ == old(out)@ + bt_count(*x),
{
    push_lit(out, ",\"count\":");
    push_i64(out, x.count as i64);
    push_bt_wap(out, x);
    proof {
        lemma_lit_defs();
        assert(enc_int(x.count as i64 as int) == enc_int(x.count as int));
        assert(out@ =~= old(out)@ + bt_count(*x));
    }
}

fn push_bt_volume(out: &mut Vec<u8>, x: &IBApiBar)
    ensures
        final(out)@ == old(out)@ + bt_volume(*x),
{
    push_lit(out, ",\"volume\":");
    push_u64(out, x.volume);
    push_bt_count(out, x);
    proof {
        lemma_lit_defs();
        assert(enc_int(x.volume as int) == dec_digits(x.volume as nat));
        assert(out@ =~= old(out)@ + bt_volume(*x));
    }
}

fn push_bt_close(out: &mut Vec<u8>, x: &IBApiBar)
    ensures
        final(out)@ == old(out)@ + bt_close(*x),
{
    push_lit(out, ",\"close\":");
    push_u64(out, x.close);
    push_bt_volume(out, x);
    proof {
        lemma_lit_defs();
        assert(enc_int(x.close as int) == dec_digits(x.close as nat));
        assert(out@ =~= old(out)@ + bt_close(*x));
    }
}

fn push_bt_low(out: &mut Vec<u8>, x: &IBApiBar)
    ensures
        final(out)@ == old(out)@ + bt_low(*x),
{
    push_lit(out, ",\"low\":");
    push_u64(out, x.low);
    push_bt_close(out, x);
    proof {
        lemma_lit_defs();
        assert(enc_int(x.low as int) == dec_digits(x.low as nat));
        assert(out@ =~= old(out)@ + bt_low(*x));
    }
}

fn push_bt_high(out: &mut Vec<u8>, x: &IBApiBar)
    ensures
        final(out)@ == old(out)@ + bt_high(*x),
{
    push_lit(out, ",\"high\":");
    push_u64(out, x.high);
    push_bt_low(out, x);
    proof {
        lemma_lit_defs();
        assert(enc_int(x.high as int) == dec_digits(x.high as nat));
        assert(out@ =~= old(out)@ + bt_high(*x));
    }
}

fn push_bt_open(out: &mut Vec<u8>, x: &IBApiBar)
    ensures
        final(out)@ == old(out)@ + bt_open(*x),
{
    push_lit(out, ",\"open\":");
    push_u64(out, x.open);
    push_bt_high(out, x);
    proof {
        lemma_lit_defs();
        assert(enc_int(x.open as int) == dec_digits(x.open as nat));
        assert(out@ =~= old(out)@ + bt_open(*x));
    }
}

/// Writes one bar.
fn push_bar(out: &mut Vec<u8>, x: &IBApiBar)
    ensures
        final(out)@ == old(out)@ + enc_bar(*x),
{
    push_lit(out, "{\"date\":");
    push_i64(out, x.date);
    push_bt_open(out, x);
    proof {
        reveal(enc_bar);
        lemma_lit_defs();
        assert(out@ =~= old(out)@ + enc_bar(*x));
    }
}

/// Writes the bars from `from` on, comma separated.
fn push_bar_items(out: &mut Vec<u8>, s: &Vec<IBApiBar>, from: usize)
    requires
        from < s@.len(),
    ensures
        final(out)@ == old(out)@ + enc_bar_items(s@.skip(from as int)),
    decreases s@.len() - from,
{
    push_bar(out, &s[from]);
    proof {
        assert(s@.skip(from as int)[0] == s@[from as int]);
    }
    let n = s.len();
    if from < n - 1 {
        push_lit(out, ",");
        push_bar_items(out, s, from + 1);
        proof {
            lemma_lit_defs();
            assert(s@.skip(from as int).skip(1) =~= s@.skip(from as int + 1));
            assert(enc_bar_items(s@.skip(from as int)) == enc_bar(s@[from as int]) + l_comma()
                + enc_bar_items(s@.skip(from as int + 1)));
            assert(out@ =~= old(out)@ + enc_bar_items(s@.skip(from as int)));
        }
    } else {
        proof {
            assert(s@.skip(from as int).len() == 1);
            assert(enc_bar_items(s@.skip(from as int)) == enc_bar(s@[from as int]));
        }
    }
}

/// Writes one entry.
#[verifier::rlimit(100)]
fn push_entry(out: &mut Vec<u8>, e: &RangeEntry<i64, IBApiBar>)
    ensures
        final(out)@ == old(out)@ + enc_entry(e@),
{
    push_lit(out, "{\"start\":");
    push_i64(out, e.start);
    push_lit(out, ",\"end\":");
    push_i64(out, e.end);
    push_lit(out, ",\"data\":[");
    let ghost mid = out@;
    if e.data.len() > 0 {
        push_bar_items(out, &e.data, 0);
        proof {
            assert(e.data@.skip(0) =~= e.data@);
        }
    } else {
        proof {
            assert(enc_bar_items(e@.data) == Seq::<u8>::empty());
        }
    }
    push_lit(out, "]}");
    proof {
        reveal(enc_entry);
        lemma_lit_defs();
        assert(out@ =~= mid + enc_bar_items(e@.data) + l_bracket_brace());
        assert(out@ =~= old(out)@ + enc_entry(e@));
    }
}

/// Writes the entries from `from` on, comma separated.
fn push_entry_items(out: &mut Vec<u8>, s: &Vec<RangeEntry<i64, IBApiBar>>, from: usize)
    requires
        from < s@.len(),
    ensures
        final(out)@ == old(out)@ + enc_entry_items(entries_model(s@).skip(from as int)),
    decreases s@.len() - from,
{
    let ghost v = entries_model(s@);
    push_entry(out, &s[from]);
    proof {
        assert(v.skip(from as int)[0] == v[from as int]);
        assert(v[from as int] == s@[from as int]@);
    }
    let n = s.len();
    if from < n - 1 {
        push_lit(out, ",");
        push_entry_items(out, s, from + 1);
        proof {
            lemma_lit_defs();
            assert(v.skip(from as int).skip(1) =~= v.skip(from as int + 1));
            assert(enc_entry_items(v.skip(from as int)) == enc_entry(v[from as int]) + l_comma()
                + enc_entry_items(v.skip(from as int + 1)));
            assert(out@ =~= old(out)@ + enc_entry_items(v.skip(from as int)));
        }
    } else {
        proof {
            assert(v.skip(from as int).len() == 1);
            assert(enc_entry_items(v.skip(from as int)) == enc_entry(v[from as int]));
        }
    }
}

// ---------------------------------------------------------------------------
// Reading
// ---------------------------------------------------------------------------

fn parse_bt_wap_at(
    b: &Vec<u8>,
    pos: usize,
    date: i64,
    open: u64,
    high: u64,
    low: u64,
    close: u64,
    volume: u64,
    count: i32,
) -> (r: Option<(IBApiBar, usize)>)
    requires
        pos <= b@.len(),
    ensures
        match r {
            Some(xp) => pos < xp.1 <= b@.len() && spec_parse_bt_wap(
                b@.skip(pos as int),
                date,
                open,
                high,
                low,
                close,
                volume,
                count,
            ) == Some::<(IBApiBar, int)>((xp.0, xp.1 - pos as int)),
            None => spec_parse_bt_wap(
                b@.skip(pos as int),
                date,
                open,
                high,
                low,
                close,
                volume,
                count,
            ) is None,
        },
{
    proof {
        lemma_lit_defs();
    }
    let (wap, p) = match field_u64(b, pos, ",\"wap\":") {
        None => {
            return None;
        },
        Some(vp) => vp,
    };
    proof {
        assert(b@.skip(pos as int).skip(p - pos as int) =~= b@.skip(p as int));
    }
    match expect_lit(b, p, "}") {
        None => None,
        Some(q) => Some((IBApiBar { date, open, high, low, close, volume, count, wap }, q)),
    }
}

fn parse_bt_count_at(
    b: &Vec<u8>,
    pos: usize,
    date: i64,
    open: u64,
    high: u64,
    low: u64,
    close: u64,
    volume: u64,
) -> (r: Option<(IBApiBar, usize)>)
    requires
        pos <= b@.len(),
    ensures
        match r {
            Some(xp) => pos < xp.1 <= b@.len() && spec_parse_bt_count(
                b@.skip(pos as int),
                date,
                open,
                high,
                low,
                close,
                volume,
            ) == Some::<(IBApiBar, int)>((xp.0, xp.1 - pos as int)),
            None => spec_parse_bt_count(
                b@.skip(pos as int),
                date,
                open,
                high,
                low,
                close,
                volume,
            ) is None,
        },
{
    proof {
        lemma_lit_defs();
    }
    let (c, p) = match field_i64(b, pos, ",\"count\":") {
        None => {
            return None;
        },
        Some(vp) => vp,
    };
    if c < i32::MIN as i64 || c > i32::MAX as i64 {
        return None;
    }
    proof {
        assert(b@.skip(pos as int).skip(p - pos as int) =~= b@.skip(p as int));
    }
    match parse_bt_wap_at(b, p, date, open, high, low, close, volume, c as i32) {
        None => None,
        Some((bar, q)) => Some((bar, q)),
    }
}

fn parse_bt_volume_at(
    b: &Vec<u8>,
    pos: usize,
    date: i64,
    open: u64,
    high: u64,
    low: u64,
    close: u64,
) -> (r: Option<(IBApiBar, usize)>)
    requires
        pos <= b@.len(),
    ensures
        match r {
            Some(xp) => pos < xp.1 <= b@.len() && spec_parse_bt_volume(
                b@.skip(pos as int),
                date,
                open,
                high,
                low,
                close,
            ) == Some::<(IBApiBar, int)>((xp.0, xp.1 - pos as int)),
            None => spec_parse_bt_volume(b@.skip(pos as int), date, open, high, low, close)
                is None,
        },
{
    proof {
        lemma_lit_defs();
    }
    let (volume, p) = match field_u64(b, pos, ",\"volume\":") {
        None => {
            return None;
        },
        Some(vp) => vp,
    };
    proof {
        assert(b@.skip(pos as int).skip(p - pos as int) =~= b@.skip(p as int));
    }
    match parse_bt_count_at(b, p, date, open, high, low, close, volume) {
        None => None,
        Some((bar, q)) => Some((bar, q)),
    }
}

fn parse_bt_close_at(b: &Vec<u8>, pos: usize, date: i64, open: u64, high: u64, low: u64) -> (r:
    Option<(IBApiBar, usize)>)
    requires
        pos <= b@.len(),
    ensures
        match r {
            Some(xp) => pos < xp.1 <= b@.len() && spec_parse_bt_close(
                b@.skip(pos as int),
                date,
                open,
                high,
                low,
            ) == Some::<(IBApiBar, int)>((xp.0, xp.1 - pos as int)),
            None => spec_parse_bt_close(b@.skip(pos as int), date, open, high, low) is None,
        },
{
    proof {
        lemma_lit_defs();
    }
    let (close, p) = match field_u64(b, pos, ",\"close\":") {
        None => {
            return None;
        },
        Some(vp) => vp,
    };
    proof {
        assert(b@.skip(pos as int).skip(p - pos as int) =~= b@.skip(p as int));
    }
    match parse_bt_volume_at(b, p, date, open, high, low, close) {
        None => None,
        Some((bar, q)) => Some((bar, q)),
    }
}

fn parse_bt_low_at(b: &Vec<u8>, pos: usize, date: i64, open: u64, high: u64) -> (r: Option<
    (IBApiBar, usize),
>)
    requires
        pos <= b@.len(),
    ensures
        match r {
            Some(xp) => pos < xp.1 <= b@.len() && spec_parse_bt_low(
                b@.skip(pos as int),
                date,
                open,
                high,
            ) == Some::<(IBApiBar, int)>((xp.0, xp.1 - pos as int)),
            None => spec_parse_bt_low(b@.skip(pos as int), date, open, high) is None,
        },
{
    proof {
        lemma_lit_defs();
    }
    let (low, p) = match field_u64(b, pos, ",\"low\":") {
        None => {
            return None;
        },
        Some(vp) => vp,
    };
    proof {
        assert(b@.skip(pos as int).skip(p - pos as int) =~= b@.skip(p as int));
    }
    match parse_bt_close_at(b, p, date, open, high, low) {
        None => None,
        Some((bar, q)) => Some((bar, q)),
    }
}

fn parse_bt_high_at(b: &Vec<u8>, pos: usize, date: i64, open: u64) -> (r: Option<
    (IBApiBar, usize),
>)
    requires
        pos <= b@.len(),
    ensures
        match r {
            Some(xp) => pos < xp.1 <= b@.len() && spec_parse_bt_high(
                b@.skip(pos as int),
                date,
                open,
            ) == Some::<(IBApiBar, int)>((xp.0, xp.1 - pos as int)),
            None => spec_parse_bt_high(b@.skip(pos as int), date, open) is None,
        },
{
    proof {
        lemma_lit_defs();
    }
    let (high, p) = match field_u64(b, pos, ",\"high\":") {
        None => {
            return None;
        },
        Some(vp) => vp,
    };
    proof {
        assert(b@.skip(pos as int).skip(p - pos as int) =~= b@.skip(p as int));
    }
    match parse_bt_low_at(b, p, date, open, high) {
        None => None,
        Some((bar, q)) => Some((bar, q)),
    }
}

fn parse_bt_open_at(b: &Vec<u8>, pos: usize, date: i64) -> (r: Option<(IBApiBar, usize)>)
    requires
        pos <= b@.len(),
    ensures
        match r {
            Some(xp) => pos < xp.1 <= b@.len() && spec_parse_bt_open(b@.skip(pos as int), date)
                == Some::<(IBApiBar, int)>((xp.0, xp.1 - pos as int)),
            None => spec_parse_bt_open(b@.skip(pos as int), date) is None,
        },
{
    proof {
        lemma_lit_defs();
    }
    let (open, p) = match field_u64(b, pos, ",\"open\":") {
        None => {
            return None;
        },
        Some(vp) => vp,
    };
    proof {
        assert(b@.skip(pos as int).skip(p - pos as int) =~= b@.skip(p as int));
    }
    match parse_bt_high_at(b, p, date, open) {
        None => None,
        Some((bar, q)) => Some((bar, q)),
    }
}

/// Reads one bar object; mirrors `spec_parse_bar` at `pos`.
fn parse_bar_at(b: &Vec<u8>, pos: usize) -> (r: Option<(IBApiBar, usize)>)
    requires
        pos <= b@.len(),
    ensures
        match r {
            Some(xp) => pos < xp.1 <= b@.len() && spec_parse_bar(b@.skip(pos as int))
                == Some::<(IBApiBar, int)>((xp.0, xp.1 - pos as int)),
            None => spec_parse_bar(b@.skip(pos as int)) is None,
        },
{
    proof {
        lemma_lit_defs();
    }
    let (date, p) = match field_i64(b, pos, "{\"date\":") {
        None => {
            return None;
        },
        Some(vp) => vp,
    };
    proof {
        assert(b@.skip(pos as int).skip(p - pos as int) =~= b@.skip(p as int));
    }
    match parse_bt_open_at(b, p, date) {
        None => None,
        Some((bar, q)) => Some((bar, q)),
    }
}

/// Reads a literal followed by an unsigned number; mirrors
/// `after_lit_u64`.
fn field_u64(b: &Vec<u8>, pos: usize, lit: &str) -> (r: Option<(u64, usize)>)
    requires
        pos <= b@.len(),
    ensures
        match r {
            Some(vp) => pos < vp.1 <= b@.len() && after_lit_u64(
                b@.skip(pos as int),
                encode_utf8(lit@),
            ) == Some::<(u64, int)>((vp.0, vp.1 - pos as int)),
            None => after_lit_u64(b@.skip(pos as int), encode_utf8(lit@)) is None,
        },
{
    let p = match expect_lit(b, pos, lit) {
        None => {
            return None;
        },
        Some(p) => p,
    };
    match parse_u64_at(b, p) {
        None => {
            proof {
                assert(b@.skip(pos as int).skip(encode_utf8(lit@).len() as int) =~= b@.skip(
                    p as int,
                ));
            }
            None
        },
        Some((v, q)) => {
            proof {
                assert(b@.skip(pos as int).skip(encode_utf8(lit@).len() as int) =~= b@.skip(
                    p as int,
                ));
            }
            Some((v, q))
        },
    }
}

/// Reads a literal followed by a signed number; mirrors `after_lit_i64`.
fn field_i64(b: &Vec<u8>, pos: usize, lit: &str) -> (r: Option<(i64, usize)>)
    requires
        pos <= b@.len(),
    ensures
        match r {
            Some(vp) => pos < vp.1 <= b@.len() && after_lit_i64(
                b@.skip(pos as int),
                encode_utf8(lit@),
            ) == Some::<(i64, int)>((vp.0, vp.1 - pos as int)),
            None => after_lit_i64(b@.skip(pos as int), encode_utf8(lit@)) is None,
        },
{
    let p = match expect_lit(b, pos, lit) {
        None => {
            return None;
        },
        Some(p) => p,
    };
    match parse_i64_at(b, p) {
        None => {
            proof {
                assert(b@.skip(pos as int).skip(encode_utf8(lit@).len() as int) =~= b@.skip(
                    p as int,
                ));
            }
            None
        },
        Some((v, q)) => {
            proof {
                assert(b@.skip(pos as int).skip(encode_utf8(lit@).len() as int) =~= b@.skip(
                    p as int,
                ));
            }
            Some((v, q))
        },
    }
}

/// Reads a comma-separated run of bars; mirrors `spec_parse_bar_items`.
fn parse_bar_items_at(b: &Vec<u8>, pos: usize) -> (r: Option<(Vec<IBApiBar>, usize)>)
    requires
        pos <= b@.len(),
    ensures
        match r {
            Some(xp) => pos < xp.1 <= b@.len() && spec_parse_bar_items(b@.skip(pos as int))
                == Some::<(Seq<IBApiBar>, int)>((xp.0@, xp.1 - pos as int)),
            None => spec_parse_bar_items(b@.skip(pos as int)) is None,
        },
    decreases b@.len() - pos,
{
    let (x, p) = match parse_bar_at(b, pos) {
        None => {
            return None;
        },
        Some(xp) => xp,
    };
    if p < b.len() && b[p] == 44 {
        proof {
            assert(b@.skip(pos as int)[p - pos as int] == b@[p as int]);
        }
        match parse_bar_items_at(b, p + 1) {
            None => {
                proof {
                    assert(b@.skip(pos as int).skip(p - pos as int + 1) =~= b@.skip(
                        p as int + 1,
                    ));
                }
                None
            },
            Some((xs, q)) => {
                let mut v = xs;
                v.insert(0, x);
                proof {
                    assert(b@.skip(pos as int).skip(p - pos as int + 1) =~= b@.skip(
                        p as int + 1,
                    ));
                    assert(v@ =~= seq![x] + v@.skip(1));
                }
                Some((v, q))
            },
        }
    } else {
        proof {
            if p - pos < b@.skip(pos as int).len() {
                assert(b@.skip(pos as int)[p - pos as int] == b@[p as int]);
            }
        }
        let mut v: Vec<IBApiBar> = Vec::new();
        v.push(x);
        proof {
            assert(v@ =~= seq![x]);
        }
        Some((v, p))
    }
}

/// Reads one entry object; mirrors `spec_parse_entry`.
#[verifier::rlimit(100)]
fn parse_entry_at(b: &Vec<u8>, pos: usize) -> (r: Option<(RangeEntry<i64, IBApiBar>, usize)>)
    requires
        pos <= b@.len(),
    ensures
        match r {
            Some(xp) => pos < xp.1 <= b@.len() && spec_parse_entry(b@.skip(pos as int))
                == Some::<(EntryModel<i64, IBApiBar>, int)>((xp.0@, xp.1 - pos as int)),
            None => spec_parse_entry(b@.skip(pos as int)) is None,
        },
{
    proof {
        lemma_lit_defs();
    }
    let ghost t = b@.skip(pos as int);
    let (start, t1) = match field_i64(b, pos, "{\"start\":") {
        None => {
            return None;
        },
        Some(vp) => vp,
    };
    proof {
        assert(t.skip(t1 - pos as int) =~= b@.skip(t1 as int));
    }
    let (endv, t2) = match field_i64(b, t1, ",\"end\":") {
        None => {
            return None;
        },
        Some(vp) => vp,
    };
    proof {
        assert(t.skip(t2 - pos as int) =~= b@.skip(t2 as int));
    }
    let t3 = match expect_lit(b, t2, ",\"data\":[") {
        None => {
            return None;
        },
        Some(p) => p,
    };
    proof {
        assert(t.skip(t3 - pos as int) =~= b@.skip(t3 as int));
    }
    match expect_lit(b, t3, "]}") {
        Some(t4) => {
            let e = RangeEntry { start, end: endv, data: Vec::new() };
            proof {
                assert(e@.data =~= Seq::<IBApiBar>::empty());
            }
            Some((e, t4))
        },
        None => {
            let (bars, t4) = match parse_bar_items_at(b, t3) {
                None => {
                    return None;
                },
                Some(xp) => xp,
            };
            proof {
                assert(t.skip(t4 - pos as int) =~= b@.skip(t4 as int));
            }
            let t5 = match expect_lit(b, t4, "]}") {
                None => {
                    return None;
                },
                Some(p) => p,
            };
            Some((RangeEntry { start, end: endv, data: bars }, t5))
        },
    }
}

/// Reads a comma-separated run of entries; mirrors
/// `spec_parse_entry_items`.
fn parse_entry_items_at(b: &Vec<u8>, pos: usize) -> (r: Option<
    (Vec<RangeEntry<i64, IBApiBar>>, usize),
>)
    requires
        pos <= b@.len(),
    ensures
        match r {
            Some(xp) => pos < xp.1 <= b@.len() && spec_parse_entry_items(b@.skip(pos as int))
                == Some::<(Seq<EntryModel<i64, IBApiBar>>, int)>(
                (entries_model(xp.0@), xp.1 - pos as int),
            ),
            None => spec_parse_entry_items(b@.skip(pos as int)) is None,
        },
    decreases b@.len() - pos,
{
    let (x, p) = match parse_entry_at(b, pos) {
        None => {
            return None;
        },
        Some(xp) => xp,
    };
    if p < b.len() && b[p] == 44 {
        proof {
            assert(b@.skip(pos as int)[p - pos as int] == b@[p as int]);
        }
        match parse_entry_items_at(b, p + 1) {
            None => {
                proof {
                    assert(b@.skip(pos as int).skip(p - pos as int + 1) =~= b@.skip(
                        p as int + 1,
                    ));
                }
                None
            },
            Some((xs, q)) => {
                let mut v = xs;
                v.insert(0, x);
                proof {
                    assert(b@.skip(pos as int).skip(p - pos as int + 1) =~= b@.skip(
                        p as int + 1,
                    ));
                    assert(entries_model(v@) =~= seq![v@[0]@] + entries_model(v@.skip(1)));
                    assert(v@.skip(1) =~= v@.subrange(1, v@.len() as int));
                }
                Some((v, q))
            },
        }
    } else {
        proof {
            if p - pos < b@.skip(pos as int).len() {
                assert(b@.skip(pos as int)[p - pos as int] == b@[p as int]);
            }
        }
        let mut v: Vec<RangeEntry<i64, IBApiBar>> = Vec::new();
        v.push(x);
        proof {
            assert(entries_model(v@) =~= seq![x@]);
        }
        Some((v, p))
    }
}

/// Reads a whole document; mirrors `spec_parse_doc`.
fn parse_doc(b: &Vec<u8>) -> (r: Option<Vec<RangeEntry<i64, IBApiBar>>>)
    ensures
        match r {
            Some(es) => spec_parse_doc(b@) == Some(entries_model(es@)),
            None => spec_parse_doc(b@) is None,
        },
{
    proof {
        lemma_lit_defs();
        assert(b@.skip(0) =~= b@);
    }
    let q = match expect_lit(b, 0, "{\"entries\":[") {
        None => {
            return None;
        },
        Some(p) => p,
    };
    proof {
        assert(b@.skip(0) =~= b@);
        assert(lit_at(b@, l_doc_open()));
    }
    match expect_lit(b, q, "]}") {
        Some(p) => {
            if p == b.len() {
                let v: Vec<RangeEntry<i64, IBApiBar>> = Vec::new();
                proof {
                    assert(entries_model(v@) =~= Seq::<EntryModel<i64, IBApiBar>>::empty());
                }
                Some(v)
            } else {
                None
            }
        },
        None => {
            let (es, m) = match parse_entry_items_at(b, q) {
                None => {
                    return None;
                },
                Some(xp) => xp,
            };
            proof {
                assert(b@.skip(q as int).skip(m - q as int) =~= b@.skip(m as int));
            }
            match expect_lit(b, m, "]}") {
                None => None,
                Some(p) => {
                    if p == b.len() {
                        Some(es)
                    } else {
                        None
                    }
                },
            }
        },
    }
}

// ---------------------------------------------------------------------------
// The store invariant, checked on loaded data
// ---------------------------------------------------------------------------

/// Decides whether one parsed range is well formed.
#[verifier::loop_isolation(false)]
fn check_entry_wf(e: &RangeEntry<i64, IBApiBar>) -> (r: bool)
    ensures
        r == entry_wf::<i64, IBApiBar>(e@),
{
    let n = e.data.len();
    if n == 0 {
        return false;
    }
    if e.start != e.data[0].date {
        return false;
    }
    if e.end != e.data[n - 1].date {
        return false;
    }
    let mut i: usize = 1;
    while i < n
        invariant
            1 <= i <= n,
            forall|a: int, c: int| 0 <= a < c < i ==> e.data@[a].date < e.data@[c].date,
        decreases n - i,
    {
        if e.data[i - 1].date >= e.data[i].date {
            proof {
                assert(!lt_spec::<i64>(
                    e.data@[i - 1].key_spec(),
                    e.data@[i as int].key_spec(),
                ));
            }
            return false;
        }
        i = i + 1;
    }
    proof {
        assert forall|a: int, c: int| 0 <= a < c < e.data@.len() implies lt_spec::<i64>(
            e.data@[a].key_spec(),
            e.data@[c].key_spec(),
        ) by {}
    }
    true
}

/// Decides whether a parsed entry sequence forms a well-formed store.
#[verifier::loop_isolation(false)]
fn check_store_wf(es: &Vec<RangeEntry<i64, IBApiBar>>) -> (r: bool)
    ensures
        r == store_wf::<i64, IBApiBar>(entries_model(es@)),
{
    let ghost v = entries_model(es@);
    let n = es.len();
    let mut i: usize = 0;
    while i < n
        invariant
            0 <= i <= n,
            forall|a: int| 0 <= a < i ==> entry_wf::<i64, IBApiBar>(#[trigger] v[a]),
            forall|a: int, c: int| 0 <= a < c < i ==> v[a].end < v[c].start,
        decreases n - i,
    {
        if !check_entry_wf(&es[i]) {
            proof {
                assert(v[i as int] == es@[i as int]@);
                assert(!entry_wf::<i64, IBApiBar>(v[i as int]));
                assert(!store_wf::<i64, IBApiBar>(v));
            }
            return false;
        }
        if i > 0 {
            if es[i - 1].end >= es[i].start {
                proof {
                    assert(v[i - 1] == es@[i - 1]@);
                    assert(v[i as int] == es@[i as int]@);
                    assert(!lt_spec::<i64>(v[i - 1].end, v[i as int].start));
                    assert(!store_wf::<i64, IBApiBar>(v));
                }
                return false;
            }
        }
        proof {
            assert(entry_wf::<i64, IBApiBar>(v[i as int]));
            assert forall|a: int| 0 <= a < i implies v[a].end < v[i as int].start by {
                if a < i - 1 {
                    // a's end lies before the previous entry, whose span ends
                    // before the new one begins
                    assert(v[a].end < v[i - 1].start);
                    assert(v[i - 1].start <= v[i - 1].end) by {
                        assert(entry_wf::<i64, IBApiBar>(v[i - 1]));
                        assert(pts_sorted::<i64, IBApiBar>(v[i - 1].data));
                        if v[i - 1].data.len() > 1 {
                            assert(lt_spec::<i64>(
                                v[i - 1].data[0].key_spec(),
                                v[i - 1].data[v[i - 1].data.len() - 1].key_spec(),
                            ));
                        }
                    }
                }
            }
        }
        i = i + 1;
    }
    proof {
        assert forall|a: int, c: int| 0 <= a < c < v.len() implies lt_spec::<i64>(
            v[a].end,
            v[c].start,
        ) by {}
    }
    true
}

// ---------------------------------------------------------------------------
// The persistence interface of the bar store
// ---------------------------------------------------------------------------

impl RangeDataStore<i64, IBApiBar> {
    /// Serializes the store to its canonical persisted document.
    pub fn save(&self) -> (r: Vec<u8>)
        ensures
            r@ == enc_store_doc(self@),
    {
        let mut out: Vec<u8> = Vec::new();
        push_lit(&mut out, "{\"entries\":[");
        if self.entries.len() > 0 {
            push_entry_items(&mut out, &self.entries, 0);
            proof {
                assert(entries_model(self.entries@).skip(0) =~= self@);
            }
        } else {
            proof {
                assert(self@.len() == 0);
                assert(enc_entry_items(self@) == Seq::<u8>::empty());
            }
        }
        push_lit(&mut out, "]}");
        proof {
            lemma_lit_defs();
            assert(out@ =~= enc_store_doc(self@));
        }
        out
    }

    /// Deserializes a persisted document. `Ok` exactly when the bytes are
    /// one canonical document whose entries form a well-formed store; a
    /// malformed document is reported, never replaced by an empty store.
    pub fn load(bytes: &Vec<u8>, location: String, name: String) -> (r: Result<Self, DataError>)
        ensures
            r matches Ok(st) ==> st.wf() && spec_parse_doc(bytes@) == Some(st@) && st.location
                == location && st.name == name,
            r matches Err(e) ==> e == DataError::Parse && (spec_parse_doc(bytes@) is None
                || !store_wf::<i64, IBApiBar>(spec_parse_doc(bytes@).unwrap())),
    {
        match parse_doc(bytes) {
            None => Err(DataError::Parse),
            Some(entries) => {
                if check_store_wf(&entries) {
                    Ok(RangeDataStore { entries, location, name })
                } else {
                    Err(DataError::Parse)
                }
            },
        }
    }
}

/// The round-trip law: a saved well-formed store parses back to exactly the
/// same entries, so `load` after `save` reproduces the store.
pub proof fn lemma_save_load_round_trip(v: Seq<EntryModel<i64, IBApiBar>>)
    requires
        store_wf::<i64, IBApiBar>(v),
    ensures
        spec_parse_doc(enc_store_doc(v)) == Some(v),
{
    lemma_parse_enc_doc(v);
}

// ---------------------------------------------------------------------------
// The interval-map document
// ---------------------------------------------------------------------------

/// The value field of one interval, closing the object.
pub open spec fn ivt_value(e: IntervalModel<i64>) -> Seq<u8> {
    l_iv_value() + enc_int(e.value as int) + l_rbrace()
}

pub open spec fn ivt_end(e: IntervalModel<i64>) -> Seq<u8> {
    l_entry_end() + enc_int(e.end as int) + ivt_value(e)
}

/// One stored interval as a JSON object.
#[verifier::opaque]
pub open spec fn enc_iv(e: IntervalModel<i64>) -> Seq<u8> {
    l_entry_start() + enc_int(e.start as int) + ivt_end(e)
}

/// A non-empty comma-separated run of intervals.
pub open spec fn enc_iv_items(v: Seq<IntervalModel<i64>>) -> Seq<u8>
    decreases v.len(),
{
    if v.len() <= 1 {
        if v.len() == 0 {
            Seq::empty()
        } else {
            enc_iv(v[0])
        }
    } else {
        enc_iv(v[0]) + l_comma() + enc_iv_items(v.skip(1))
    }
}

/// The whole persisted interval-map document.
pub open spec fn enc_iv_doc(v: Seq<IntervalModel<i64>>) -> Seq<u8> {
    l_iv_doc_open() + enc_iv_items(v) + l_bracket_brace()
}

/// One interval object at the head of `b`.
pub open spec fn spec_parse_iv(b: Seq<u8>) -> Option<(IntervalModel<i64>, int)> {
    match after_lit_i64(b, l_entry_start()) {
        None => None,
        Some((start, p1)) => match after_lit_i64(b.skip(p1), l_entry_end()) {
            None => None,
            Some((endv, n2)) => match after_lit_i64(b.skip(p1 + n2), l_iv_value()) {
                None => None,
                Some((value, n3)) => {
                    let p3 = p1 + n2 + n3;
                    if lit_at(b.skip(p3), l_rbrace()) {
                        Some(
                            (
                                IntervalModel { start, end: endv, value },
                                p3 + l_rbrace().len(),
                            ),
                        )
                    } else {
                        None
                    }
                },
            },
        },
    }
}

/// A non-empty comma-separated run of intervals at the head of `b`.
pub open spec fn spec_parse_iv_items(b: Seq<u8>) -> Option<(Seq<IntervalModel<i64>>, int)>
    decreases b.len(),
{
    match spec_parse_iv(b) {
        None => None,
        Some((x, n)) => if !(1 <= n <= b.len()) {
            None
        } else if n < b.len() && b[n] == 44 {
            match spec_parse_iv_items(b.skip(n + 1)) {
                None => None,
                Some((xs, m)) => Some((seq![x] + xs, n + 1 + m)),
            }
        } else {
            Some((seq![x], n))
        },
    }
}

/// The whole interval-map document: `None` unless `b` is exactly one
/// well-shaped document.
pub open spec fn spec_parse_iv_doc(b: Seq<u8>) -> Option<Seq<IntervalModel<i64>>> {
    if lit_at(b, l_iv_doc_open()) {
        let q = l_iv_doc_open().len() as int;
        if lit_at(b.skip(q), l_bracket_brace()) {
            if q + l_bracket_brace().len() == b.len() {
                Some(Seq::empty())
            } else {
                None
            }
        } else {
            match spec_parse_iv_items(b.skip(q)) {
                None => None,
                Some((es, m)) => if 0 <= m && lit_at(b.skip(q + m), l_bracket_brace()) && q + m
                    + l_bracket_brace().len() == b.len() {
                    Some(es)
                } else {
                    None
                },
            }
        }
    } else {
        None
    }
}

/// An interval encoding opens like its first literal.
pub proof fn lemma_enc_iv_facts(e: IntervalModel<i64>)
    ensures
        enc_iv(e).len() >= 1,
        enc_iv(e)[0] == l_entry_start()[0],
{
    reveal(enc_iv);
    lemma_lit_facts();
}

/// An interval encoding followed by anything parses back to the interval.
pub proof fn lemma_parse_enc_iv(e: IntervalModel<i64>, rest: Seq<u8>)
    ensures
        spec_parse_iv(enc_iv(e) + rest) == Some::<(IntervalModel<i64>, int)>(
            (e, enc_iv(e).len() as int),
        ),
{
    reveal(enc_iv);
    lemma_lit_facts();
    let b = enc_iv(e) + rest;
    assert(b =~= l_entry_start() + enc_int(e.start as int) + (ivt_end(e) + rest));
    assert((ivt_end(e) + rest)[0] == l_entry_end()[0]);
    lemma_field_i64(b, l_entry_start(), e.start, ivt_end(e) + rest);
    let p1 = l_entry_start().len() + enc_int(e.start as int).len() as int;
    let b1 = b.skip(p1);
    assert(b1 =~= l_entry_end() + enc_int(e.end as int) + (ivt_value(e) + rest));
    assert((ivt_value(e) + rest)[0] == l_iv_value()[0]);
    lemma_field_i64(b1, l_entry_end(), e.end, ivt_value(e) + rest);
    let n2 = l_entry_end().len() + enc_int(e.end as int).len() as int;
    assert(b1.skip(n2) =~= b.skip(p1 + n2));
    let b2 = b.skip(p1 + n2);
    assert(b2 =~= l_iv_value() + enc_int(e.value as int) + (l_rbrace() + rest));
    assert((l_rbrace() + rest)[0] == l_rbrace()[0]);
    lemma_field_i64(b2, l_iv_value(), e.value, l_rbrace() + rest);
    let n3 = l_iv_value().len() + enc_int(e.value as int).len() as int;
    assert(b2.skip(n3) =~= b.skip(p1 + n2 + n3));
    let p3 = p1 + n2 + n3;
    assert(b.skip(p3) =~= l_rbrace() + rest);
    assert(b.skip(p3).take(l_rbrace().len() as int) =~= l_rbrace());
    assert(lit_at(b.skip(p3), l_rbrace()));
    assert(p3 + l_rbrace().len() == enc_iv(e).len());
    assert(IntervalModel::<i64> { start: e.start, end: e.end, value: e.value } == e);
}

/// A run of interval encodings followed by no comma parses back to the run.
pub proof fn lemma_parse_enc_iv_items(v: Seq<IntervalModel<i64>>, rest: Seq<u8>)
    requires
        v.len() >= 1,
        rest.len() == 0 || rest[0] != 44,
    ensures
        spec_parse_iv_items(enc_iv_items(v) + rest) == Some::<(Seq<IntervalModel<i64>>, int)>(
            (v, enc_iv_items(v).len() as int),
        ),
    decreases v.len(),
{
    lemma_lit_facts();
    lemma_enc_iv_facts(v[0]);
    let b = enc_iv_items(v) + rest;
    if v.len() == 1 {
        assert(enc_iv_items(v) == enc_iv(v[0]));
        lemma_parse_enc_iv(v[0], rest);
        let n = enc_iv(v[0]).len() as int;
        assert(n >= 1);
        if n < b.len() {
            assert(b[n] == rest[0]);
        }
        assert(seq![v[0]] =~= v);
    } else {
        assert(enc_iv_items(v) == enc_iv(v[0]) + l_comma() + enc_iv_items(v.skip(1)));
        let tail = l_comma() + enc_iv_items(v.skip(1)) + rest;
        assert(b =~= enc_iv(v[0]) + tail);
        lemma_parse_enc_iv(v[0], tail);
        let n = enc_iv(v[0]).len() as int;
        assert(n >= 1);
        assert(b[n] == tail[0]);
        assert(tail[0] == 44);
        assert(b.skip(n + 1) =~= enc_iv_items(v.skip(1)) + rest);
        lemma_parse_enc_iv_items(v.skip(1), rest);
        assert(seq![v[0]] + v.skip(1) =~= v);
        assert(n + 1 + enc_iv_items(v.skip(1)).len() == enc_iv_items(v).len());
    }
}

/// The round-trip law of the interval-map document.
pub proof fn lemma_parse_enc_iv_doc(v: Seq<IntervalModel<i64>>)
    ensures
        spec_parse_iv_doc(enc_iv_doc(v)) == Some(v),
{
    lemma_lit_facts();
    let b = enc_iv_doc(v);
    let q = l_iv_doc_open().len() as int;
    assert(b.take(q) =~= l_iv_doc_open());
    assert(lit_at(b, l_iv_doc_open()));
    if v.len() == 0 {
        assert(enc_iv_items(v) == Seq::<u8>::empty());
        assert(b.skip(q) =~= l_bracket_brace());
        assert(b.skip(q).take(l_bracket_brace().len() as int) =~= l_bracket_brace());
        assert(lit_at(b.skip(q), l_bracket_brace()));
        assert(q + l_bracket_brace().len() == b.len());
        assert(Seq::<IntervalModel<i64>>::empty() =~= v);
    } else {
        assert(b.skip(q) =~= enc_iv_items(v) + l_bracket_brace());
        assert(enc_iv_items(v).len() > 0) by {
            lemma_enc_iv_facts(v[0]);
            if v.len() == 1 {
                assert(enc_iv_items(v) == enc_iv(v[0]));
            }
        }
        assert(enc_iv_items(v)[0] == l_entry_start()[0]) by {
            lemma_enc_iv_facts(v[0]);
            if v.len() == 1 {
                assert(enc_iv_items(v) == enc_iv(v[0]));
            } else {
                assert(enc_iv_items(v)[0] == enc_iv(v[0])[0]);
            }
        }
        assert(!lit_at(b.skip(q), l_bracket_brace())) by {
            if lit_at(b.skip(q), l_bracket_brace()) {
                assert(b.skip(q).take(l_bracket_brace().len() as int)[0] == b.skip(q)[0]);
                assert(b.skip(q)[0] == enc_iv_items(v)[0]);
            }
        }
        lemma_parse_enc_iv_items(v, l_bracket_brace());
        let m = enc_iv_items(v).len() as int;
        assert(b.skip(q).skip(m) =~= b.skip(q + m));
        assert(b.skip(q + m) =~= l_bracket_brace());
        assert(b.skip(q + m).take(l_bracket_brace().len() as int) =~= l_bracket_brace());
        assert(lit_at(b.skip(q + m), l_bracket_brace()));
        assert(q + m + l_bracket_brace().len() == b.len());
    }
}

/// Writes one interval.
#[verifier::rlimit(100)]
fn push_iv(out: &mut Vec<u8>, e: &IntervalEntry<i64>)
    ensures
        final(out)@ == old(out)@ + enc_iv(e@),
{
    push_lit(out, "{\"start\":");
    push_i64(out, e.start);
    push_lit(out, ",\"end\":");
    push_i64(out, e.end);
    push_lit(out, ",\"value\":");
    push_i64(out, e.value);
    push_lit(out, "}");
    proof {
        reveal(enc_iv);
        lemma_lit_defs();
        reveal(l_iv_value);
        assert(out@ =~= old(out)@ + enc_iv(e@));
    }
}

/// Writes the intervals from `from` on, comma separated.
fn push_iv_items(out: &mut Vec<u8>, s: &Vec<IntervalEntry<i64>>, from: usize)
    requires
        from < s@.len(),
    ensures
        final(out)@ == old(out)@ + enc_iv_items(ivs_model(s@).skip(from as int)),
    decreases s@.len() - from,
{
    let ghost v = ivs_model(s@);
    push_iv(out, &s[from]);
    proof {
        assert(v.skip(from as int)[0] == v[from as int]);
        assert(v[from as int] == s@[from as int]@);
    }
    let n = s.len();
    if from < n - 1 {
        push_lit(out, ",");
        push_iv_items(out, s, from + 1);
        proof {
            lemma_lit_defs();
            assert(v.skip(from as int).skip(1) =~= v.skip(from as int + 1));
            assert(enc_iv_items(v.skip(from as int)) == enc_iv(v[from as int]) + l_comma()
                + enc_iv_items(v.skip(from as int + 1)));
            assert(out@ =~= old(out)@ + enc_iv_items(v.skip(from as int)));
        }
    } else {
        proof {
            assert(v.skip(from as int).len() == 1);
            assert(enc_iv_items(v.skip(from as int)) == enc_iv(v[from as int]));
        }
    }
}

/// Reads one interval object; mirrors `spec_parse_iv`.
#[verifier::rlimit(100)]
fn parse_iv_at(b: &Vec<u8>, pos: usize) -> (r: Option<(IntervalEntry<i64>, usize)>)
    requires
        pos <= b@.len(),
    ensures
        match r {
            Some(xp) => pos < xp.1 <= b@.len() && spec_parse_iv(b@.skip(pos as int))
                == Some::<(IntervalModel<i64>, int)>((xp.0@, xp.1 - pos as int)),
            None => spec_parse_iv(b@.skip(pos as int)) is None,
        },
{
    proof {
        lemma_lit_defs();
        reveal(l_iv_value);
    }
    let ghost t = b@.skip(pos as int);
    let (start, t1) = match field_i64(b, pos, "{\"start\":") {
        None => {
            return None;
        },
        Some(vp) => vp,
    };
    proof {
        assert(t.skip(t1 - pos as int) =~= b@.skip(t1 as int));
    }
    let (endv, t2) = match field_i64(b, t1, ",\"end\":") {
        None => {
            return None;
        },
        Some(vp) => vp,
    };
    proof {
        assert(t.skip(t2 - pos as int) =~= b@.skip(t2 as int));
    }
    let (value, t3) = match field_i64(b, t2, ",\"value\":") {
        None => {
            return None;
        },
        Some(vp) => vp,
    };
    proof {
        assert(t.skip(t3 - pos as int) =~= b@.skip(t3 as int));
    }
    let t4 = match expect_lit(b, t3, "}") {
        None => {
            return None;
        },
        Some(p) => p,
    };
    Some((IntervalEntry { start, end: endv, value }, t4))
}

/// Reads a comma-separated run of intervals; mirrors `spec_parse_iv_items`.
fn parse_iv_items_at(b: &Vec<u8>, pos: usize) -> (r: Option<(Vec<IntervalEntry<i64>>, usize)>)
    requires
        pos <= b@.len(),
    ensures
        match r {
            Some(xp) => pos < xp.1 <= b@.len() && spec_parse_iv_items(b@.skip(pos as int))
                == Some::<(Seq<IntervalModel<i64>>, int)>(
                (ivs_model(xp.0@), xp.1 - pos as int),
            ),
            None => spec_parse_iv_items(b@.skip(pos as int)) is None,
        },
    decreases b@.len() - pos,
{
    let (x, p) = match parse_iv_at(b, pos) {
        None => {
            return None;
        },
        Some(xp) => xp,
    };
    if p < b.len() && b[p] == 44 {
        proof {
            assert(b@.skip(pos as int)[p - pos as int] == b@[p as int]);
        }
        match parse_iv_items_at(b, p + 1) {
            None => {
                proof {
                    assert(b@.skip(pos as int).skip(p - pos as int + 1) =~= b@.skip(
                        p as int + 1,
                    ));
                }
                None
            },
            Some((xs, q)) => {
                let mut v = xs;
                v.insert(0, x);
                proof {
                    assert(b@.skip(pos as int).skip(p - pos as int + 1) =~= b@.skip(
                        p as int + 1,
                    ));
                    assert(ivs_model(v@) =~= seq![v@[0]@] + ivs_model(v@.skip(1)));
                    assert(v@.skip(1) =~= v@.subrange(1, v@.len() as int));
                }
                Some((v, q))
            },
        }
    } else {
        proof {
            if p - pos < b@.skip(pos as int).len() {
                assert(b@.skip(pos as int)[p - pos as int] == b@[p as int]);
            }
        }
        let mut v: Vec<IntervalEntry<i64>> = Vec::new();
        v.push(x);
        proof {
            assert(ivs_model(v@) =~= seq![x@]);
        }
        Some((v, p))
    }
}

/// Reads a whole interval-map document; mirrors `spec_parse_iv_doc`.
fn parse_iv_doc(b: &Vec<u8>) -> (r: Option<Vec<IntervalEntry<i64>>>)
    ensures
        match r {
            Some(es) => spec_parse_iv_doc(b@) == Some(ivs_model(es@)),
            None => spec_parse_iv_doc(b@) is None,
        },
{
    proof {
        lemma_lit_defs();
        reveal(l_iv_doc_open);
        assert(b@.skip(0) =~= b@);
    }
    let q = match expect_lit(b, 0, "{\"ranges\":[") {
        None => {
            return None;
        },
        Some(p) => p,
    };
    proof {
        assert(b@.skip(0) =~= b@);
        assert(lit_at(b@, l_iv_doc_open()));
    }
    match expect_lit(b, q, "]}") {
        Some(p) => {
            if p == b.len() {
                let v: Vec<IntervalEntry<i64>> = Vec::new();
                proof {
                    assert(ivs_model(v@) =~= Seq::<IntervalModel<i64>>::empty());
                }
                Some(v)
            } else {
                None
            }
        },
        None => {
            let (es, m) = match parse_iv_items_at(b, q) {
                None => {
                    return None;
                },
                Some(xp) => xp,
            };
            proof {
                assert(b@.skip(q as int).skip(m - q as int) =~= b@.skip(m as int));
            }
            match expect_lit(b, m, "]}") {
                None => None,
                Some(p) => {
                    if p == b.len() {
                        Some(es)
                    } else {
                        None
                    }
                },
            }
        },
    }
}

/// Decides whether parsed intervals form a well-formed map.
#[verifier::loop_isolation(false)]
fn check_ivs_wf(es: &Vec<IntervalEntry<i64>>) -> (r: bool)
    ensures
        r == ivs_wf(ivs_model(es@)),
{
    let ghost v = ivs_model(es@);
    let n = es.len();
    let mut i: usize = 0;
    while i < n
        invariant
            0 <= i <= n,
            forall|a: int| 0 <= a < i ==> (#[trigger] v[a]).start <= v[a].end,
            forall|a: int, c: int| 0 <= a < c < i ==> v[a].end < v[c].start,
        decreases n - i,
    {
        if es[i].start > es[i].end {
            proof {
                assert(v[i as int] == es@[i as int]@);
            }
            return false;
        }
        if i > 0 {
            if es[i - 1].end >= es[i].start {
                proof {
                    assert(v[i - 1] == es@[i - 1]@);
                    assert(v[i as int] == es@[i as int]@);
                }
                return false;
            }
        }
        proof {
            assert(v[i as int] == es@[i as int]@);
            assert forall|a: int| 0 <= a < i implies v[a].end < v[i as int].start by {
                if a < i - 1 {
                    assert(v[a].end < v[i - 1].start);
                    assert(v[i - 1].start <= v[i - 1].end);
                }
            }
        }
        i = i + 1;
    }
    true
}

impl RangeDataStorage<i64> {
    /// Serializes the interval map to its canonical persisted document.
    pub fn save(&self) -> (r: Vec<u8>)
        ensures
            r@ == enc_iv_doc(self@),
    {
        let mut out: Vec<u8> = Vec::new();
        push_lit(&mut out, "{\"ranges\":[");
        if self.entries.len() > 0 {
            push_iv_items(&mut out, &self.entries, 0);
            proof {
                assert(ivs_model(self.entries@).skip(0) =~= self@);
            }
        } else {
            proof {
                assert(self@.len() == 0);
                assert(enc_iv_items(self@) == Seq::<u8>::empty());
            }
        }
        push_lit(&mut out, "]}");
        proof {
            lemma_lit_defs();
            reveal(l_iv_doc_open);
            assert(out@ =~= enc_iv_doc(self@));
        }
        out
    }

    /// Deserializes a persisted interval-map document. `Ok` exactly when
    /// the bytes are one canonical document whose intervals form a
    /// well-formed map; a malformed document is reported, never replaced by
    /// an empty map.
    pub fn load(bytes: &Vec<u8>) -> (r: Result<Self, DataError>)
        ensures
            r matches Ok(st) ==> st.wf() && spec_parse_iv_doc(bytes@) == Some(st@),
            r matches Err(e) ==> e == DataError::Parse && (spec_parse_iv_doc(bytes@) is None
                || !ivs_wf(spec_parse_iv_doc(bytes@).unwrap())),
    {
        match parse_iv_doc(bytes) {
            None => Err(DataError::Parse),
            Some(entries) => {
                if check_ivs_wf(&entries) {
                    Ok(RangeDataStorage { entries })
                } else {
                    Err(DataError::Parse)
                }
            },
        }
    }
}

/// The round-trip law of the interval map: a saved well-formed map parses
/// back to exactly the same intervals, so `load` after `save` reproduces
/// the map.
pub proof fn lemma_iv_save_load_round_trip(v: Seq<IntervalModel<i64>>)
    requires
        ivs_wf(v),
    ensures
        spec_parse_iv_doc(enc_iv_doc(v)) == Some(v),
{
    lemma_parse_enc_iv_doc(v);
}

} // verus!
