//! The record stream decoder.
//!
//! A content file is a byte stream of concatenated records, each ended by
//! the record terminator byte 0x1D.  The stream is split at the
//! terminators; every terminated segment is checked for a well-formed
//! leader and directory and handed to the record parser, and segments that
//! do not decode are skipped without aborting the batch.  An unterminated
//! tail is discarded.
//!
//! Inside a record, the leader's first five bytes give the record length
//! and bytes 12 to 16 the base address of the data; the directory between
//! byte 24 and the base address holds one twelve-byte entry per field (a
//! three-byte tag, a four-digit field length counting the field terminator,
//! and a five-digit offset).  Data fields carry two indicator bytes and
//! subfields introduced by the delimiter byte 0x1F.

use vstd::prelude::*;
use vstd::utf8::{decode_utf8, encode_utf8, valid_utf8, encode_utf8_decode_utf8};
use crate::record::{ControlFieldModel, DataFieldModel, RecordModel, RecordXml, SubFieldModel};

verus! {

broadcast use vstd::seq_lib::group_seq_properties;

pub const RECORD_TERMINATOR: u8 = 0x1D;

pub const FIELD_TERMINATOR: u8 = 0x1E;

pub const SUBFIELD_DELIMITER: u8 = 0x1F;

// ---------------------------------------------------------------------------
// Bytes and decimal fields
// ---------------------------------------------------------------------------

pub open spec fn dec_digit(b: u8) -> bool {
    0x30 <= b && b <= 0x39
}

/// All of `s[p..p+n]` are decimal digit bytes.
pub open spec fn digits_at(s: Seq<u8>, p: int, n: int) -> bool {
    forall|k: int| p <= k < p + n ==> dec_digit(#[trigger] s[k])
}

/// Decimal value of the digit bytes `s[p..p+n]`.
pub open spec fn dec_value(s: Seq<u8>, p: int, n: int) -> int
    decreases n,
{
    if n <= 0 {
        0
    } else {
        dec_value(s, p, n - 1) * 10 + (s[p + n - 1] - 0x30)
    }
}

proof fn lemma_dec_value_bounds(s: Seq<u8>, p: int, n: int)
    requires
        0 <= n <= 5,
        0 <= p,
        p + n <= s.len(),
        digits_at(s, p, n),
    ensures
        0 <= dec_value(s, p, n),
        n <= 1 ==> dec_value(s, p, n) <= 9,
        n <= 2 ==> dec_value(s, p, n) <= 99,
        n <= 3 ==> dec_value(s, p, n) <= 999,
        n <= 4 ==> dec_value(s, p, n) <= 9999,
        dec_value(s, p, n) <= 99999,
    decreases n,
{
    if n > 0 {
        assert(digits_at(s, p, n - 1));
        lemma_dec_value_bounds(s, p, n - 1);
        assert(dec_digit(s[p + n - 1]));
    }
}

/// First index at or after `p` where `s` holds `v`, or `s.len()`.
pub open spec fn find_byte(s: Seq<u8>, v: u8, p: int) -> int
    decreases s.len() - p,
{
    if p < 0 || p >= s.len() {
        s.len() as int
    } else if s[p] == v {
        p
    } else {
        find_byte(s, v, p + 1)
    }
}

pub proof fn lemma_find_byte_bounds(s: Seq<u8>, v: u8, p: int)
    requires
        0 <= p <= s.len(),
    ensures
        p <= find_byte(s, v, p) <= s.len(),
        find_byte(s, v, p) < s.len() ==> s[find_byte(s, v, p)] == v,
        forall|k: int| p <= k < find_byte(s, v, p) ==> s[k] != v,
    decreases s.len() - p,
{
    if p < s.len() && s[p] != v {
        lemma_find_byte_bounds(s, v, p + 1);
    }
}

// ---------------------------------------------------------------------------
// Well-formed segments
// ---------------------------------------------------------------------------

/// The base address of the data: the decimal value of leader bytes 12 to 16.
pub open spec fn base_address(s: Seq<u8>) -> int {
    dec_value(s, 12, 5)
}

/// The leader is sound: the declared record length is the segment length,
/// the segment ends with the record terminator, and the base address lies
/// between the end of the leader and the end of the segment.
pub open spec fn leader_ok(s: Seq<u8>) -> bool {
    &&& s.len() >= 24
    &&& digits_at(s, 0, 5)
    &&& dec_value(s, 0, 5) == s.len()
    &&& s[s.len() - 1] == RECORD_TERMINATOR
    &&& digits_at(s, 12, 5)
    &&& 24 <= base_address(s) <= s.len()
}

/// Number of twelve-byte directory entries.
pub open spec fn dir_entry_count(s: Seq<u8>) -> int {
    (base_address(s) - 24) / 12
}

pub open spec fn entry_tag(s: Seq<u8>, c: int) -> Seq<u8> {
    s.subrange(24 + 12 * c, 24 + 12 * c + 3)
}

pub open spec fn entry_len(s: Seq<u8>, c: int) -> int {
    dec_value(s, 24 + 12 * c + 3, 4)
}

pub open spec fn entry_off(s: Seq<u8>, c: int) -> int {
    dec_value(s, 24 + 12 * c + 7, 5)
}

/// Entry `c` of the directory has decimal digits in its length and offset
/// fields.
pub open spec fn entry_digits_ok(s: Seq<u8>, c: int) -> bool {
    digits_at(s, 24 + 12 * c + 3, 4) && digits_at(s, 24 + 12 * c + 7, 5)
}

/// The directory region parses: every full entry has digit length and
/// offset fields, and what follows the entries is nothing or one field
/// terminator byte.
pub open spec fn dir_ok(s: Seq<u8>) -> bool {
    let rem = (base_address(s) - 24) % 12;
    &&& (rem == 0 || (rem == 1 && s[base_address(s) - 1] == FIELD_TERMINATOR))
    &&& forall|c: int| 0 <= c < dir_entry_count(s) ==> #[trigger] entry_digits_ok(s, c)
}

/// Every directory entry points at a field slice that lies inside the
/// segment and has room for its field terminator.
pub open spec fn entries_ok(s: Seq<u8>) -> bool {
    forall|c: int|
        0 <= c < dir_entry_count(s) ==> 1 <= #[trigger] entry_len(s, c) && base_address(s)
            + entry_off(s, c) + entry_len(s, c) - 1 <= s.len()
}

/// A segment on which the record parser succeeds and yields one field per
/// directory entry.
pub open spec fn well_formed(s: Seq<u8>) -> bool {
    leader_ok(s) && dir_ok(s) && entries_ok(s)
}

/// The data slice of field `c`: the entry's length counts the field
/// terminator, which the parser strips.
pub open spec fn field_data(s: Seq<u8>, c: int) -> Seq<u8> {
    s.subrange(
        base_address(s) + entry_off(s, c),
        base_address(s) + entry_off(s, c) + entry_len(s, c) - 1,
    )
}

/// The fields of a well-formed segment: the directory entries' tags and
/// data slices, in directory order.
pub open spec fn fields_spec(s: Seq<u8>) -> Seq<(Seq<u8>, Seq<u8>)> {
    Seq::new(dir_entry_count(s) as nat, |c: int| (entry_tag(s, c), field_data(s, c)))
}

// ---------------------------------------------------------------------------
// Subfields of a data field
// ---------------------------------------------------------------------------

/// Subfields read from position `o` on, where `o` is just after a subfield
/// delimiter: one subfield per delimiter, its code byte first, its value
/// running to the next delimiter or the end.  A delimiter followed by
/// another delimiter or by the end stops the scan and drops the rest.
pub open spec fn sf_from(data: Seq<u8>, o: int) -> Seq<(u8, Seq<u8>)>
    decreases data.len() - o,
    via sf_from_decreases
{
    if o < 0 || o >= data.len() || data[o] == SUBFIELD_DELIMITER {
        Seq::empty()
    } else {
        let q = find_byte(data, SUBFIELD_DELIMITER, o + 1);
        let rest = if q < data.len() {
            sf_from(data, q + 1)
        } else {
            Seq::empty()
        };
        seq![(data[o], data.subrange(o + 1, q))] + rest
    }
}

#[via_fn]
proof fn sf_from_decreases(data: Seq<u8>, o: int) {
    if 0 <= o && o < data.len() {
        lemma_find_byte_bounds(data, SUBFIELD_DELIMITER, o + 1);
    }
}

/// The subfields of a data field's raw data: two indicator bytes, then
/// delimited subfields; data whose third byte is no delimiter has none.
pub open spec fn subfields_spec(data: Seq<u8>) -> Seq<(u8, Seq<u8>)> {
    if data.len() >= 3 && data[2] == SUBFIELD_DELIMITER {
        sf_from(data, 3)
    } else {
        Seq::empty()
    }
}

// ---------------------------------------------------------------------------
// From bytes to the record model
// ---------------------------------------------------------------------------

pub open spec fn is_control_tag(t: Seq<u8>) -> bool {
    t.len() == 3 && t[0] == 0x30 && t[1] == 0x30
}

/// A value is present only when its bytes are not empty.
pub open spec fn opt_text(d: Seq<u8>) -> Option<Seq<char>> {
    if d.len() == 0 {
        Option::None
    } else {
        Option::Some(decode_utf8(d))
    }
}

pub open spec fn control_field_model(f: (Seq<u8>, Seq<u8>)) -> ControlFieldModel {
    ControlFieldModel { tag: decode_utf8(f.0), value: opt_text(f.1) }
}

pub open spec fn subfield_model(sf: (u8, Seq<u8>)) -> SubFieldModel {
    SubFieldModel { code: decode_utf8(seq![sf.0]), value: opt_text(sf.1) }
}

pub open spec fn data_field_model(f: (Seq<u8>, Seq<u8>)) -> DataFieldModel {
    DataFieldModel {
        tag: decode_utf8(f.0),
        subfields: subfields_spec(f.1).map_values(|sf: (u8, Seq<u8>)| subfield_model(sf)),
    }
}

/// The control fields among `fs`, in order.
pub open spec fn controls_model(fs: Seq<(Seq<u8>, Seq<u8>)>) -> Seq<ControlFieldModel>
    decreases fs.len(),
{
    if fs.len() == 0 {
        Seq::empty()
    } else {
        let rest = controls_model(fs.drop_last());
        if is_control_tag(fs.last().0) {
            rest.push(control_field_model(fs.last()))
        } else {
            rest
        }
    }
}

/// The data fields among `fs`, in order.
pub open spec fn datafields_model(fs: Seq<(Seq<u8>, Seq<u8>)>) -> Seq<DataFieldModel>
    decreases fs.len(),
{
    if fs.len() == 0 {
        Seq::empty()
    } else {
        let rest = datafields_model(fs.drop_last());
        if is_control_tag(fs.last().0) {
            rest
        } else {
            rest.push(data_field_model(fs.last()))
        }
    }
}

/// The record a well-formed segment decodes to.
pub open spec fn record_model(s: Seq<u8>) -> RecordModel {
    RecordModel {
        controlfields: controls_model(fields_spec(s)),
        datafields: datafields_model(fields_spec(s)),
    }
}

/// All subfields of a data field's raw data carry text the string type can
/// hold.
pub open spec fn subfields_convertible(data: Seq<u8>) -> bool {
    forall|j: int|
        0 <= j < subfields_spec(data).len() ==> valid_utf8(
            seq![(#[trigger] subfields_spec(data)[j]).0],
        ) && valid_utf8(subfields_spec(data)[j].1)
}

pub open spec fn field_convertible(f: (Seq<u8>, Seq<u8>)) -> bool {
    valid_utf8(f.0) && if is_control_tag(f.0) {
        valid_utf8(f.1)
    } else {
        subfields_convertible(f.1)
    }
}

/// A segment decodes to a record when it is well formed and all of its
/// text is valid UTF-8.
pub open spec fn segment_decodes(s: Seq<u8>) -> bool {
    well_formed(s) && forall|i: int|
        0 <= i < fields_spec(s).len() ==> field_convertible(#[trigger] fields_spec(s)[i])
}

// ---------------------------------------------------------------------------
// The stream
// ---------------------------------------------------------------------------

/// The terminated segments of the stream from position `p` on, each
/// including its terminator byte.  An unterminated tail is no segment.
pub open spec fn segments_from(s: Seq<u8>, p: int) -> Seq<Seq<u8>>
    decreases s.len() - p,
    via segments_from_decreases
{
    if p < 0 {
        Seq::empty()
    } else {
        let t = find_byte(s, RECORD_TERMINATOR, p);
        if t >= s.len() {
            Seq::empty()
        } else {
            seq![s.subrange(p, t + 1)] + segments_from(s, t + 1)
        }
    }
}

#[via_fn]
proof fn segments_from_decreases(s: Seq<u8>, p: int) {
    if 0 <= p && p <= s.len() {
        lemma_find_byte_bounds(s, RECORD_TERMINATOR, p);
    }
}

/// The terminated segments of the whole stream.
pub open spec fn segments_of(s: Seq<u8>) -> Seq<Seq<u8>> {
    segments_from(s, 0)
}

/// What one segment contributes: its record, or nothing.
pub open spec fn seg_decode(seg: Seq<u8>) -> Option<RecordModel> {
    if segment_decodes(seg) {
        Option::Some(record_model(seg))
    } else {
        Option::None
    }
}

pub open spec fn seg_decode_fn() -> spec_fn(Seq<u8>) -> Option<RecordModel> {
    |seg: Seq<u8>| seg_decode(seg)
}

pub open spec fn seg_fails_fn() -> spec_fn(Seq<u8>) -> bool {
    |seg: Seq<u8>| !segment_decodes(seg)
}

/// The records of the stream: each decodable terminated segment yields one
/// record, in stream order; the others are skipped.
pub open spec fn decoded_records(s: Seq<u8>) -> Seq<RecordModel> {
    segments_of(s).filter_map(seg_decode_fn())
}

/// Number of terminated segments that fail to decode.
pub open spec fn failed_segment_count(s: Seq<u8>) -> int {
    segments_of(s).filter(seg_fails_fn()).len() as int
}

proof fn lemma_filter_map_counts(q: Seq<Seq<u8>>)
    ensures
        q.filter_map(seg_decode_fn()).len() + q.filter(seg_fails_fn()).len() == q.len(),
    decreases q.len(),
{
    reveal_with_fuel(Seq::filter, 2);
    if q.len() > 0 {
        lemma_filter_map_counts(q.drop_last());
    }
}

/// Of N terminated segments of which M fail to decode, exactly N - M
/// records come out, and (by the shape of `decoded_records`) in stream
/// order.
pub proof fn lemma_decode_count(s: Seq<u8>)
    ensures
        decoded_records(s).len() + failed_segment_count(s) == segments_of(s).len(),
{
    lemma_filter_map_counts(segments_of(s));
}

/// A stream of exactly two terminated segments of which one decodes and
/// the other does not yields exactly the decodable segment's record.
pub proof fn lemma_one_of_two_segments_decodes(s: Seq<u8>, k: int)
    requires
        segments_of(s).len() == 2,
        0 <= k < 2,
        segment_decodes(segments_of(s)[k]),
        !segment_decodes(segments_of(s)[1 - k]),
    ensures
        decoded_records(s) == seq![record_model(segments_of(s)[k])],
{
    let q = segments_of(s);
    reveal_with_fuel(Seq::filter_map, 3);
    assert(q.drop_last() =~= seq![q[0]]);
    assert(q.last() == q[1]);
    Seq::<Seq<u8>>::lemma_filter_map_singleton(q[0], seg_decode_fn());
    if k == 0 {
        assert(seq![q[0]].filter_map(seg_decode_fn()) =~= seq![record_model(q[0])]);
        assert(seg_decode(q[1]) is None);
        assert(decoded_records(s) =~= seq![record_model(q[0])]);
    } else {
        assert(seq![q[0]].filter_map(seg_decode_fn()) =~= Seq::<RecordModel>::empty());
        assert(seg_decode(q[1]) == Option::Some(record_model(q[1])));
        assert(decoded_records(s) =~= seq![record_model(q[1])]);
    }
}

/// A stream without a terminator byte holds no terminated segment and
/// decodes to no record at all, however long it is.
pub proof fn lemma_no_terminator_no_records(s: Seq<u8>)
    requires
        forall|i: int| 0 <= i < s.len() ==> #[trigger] s[i] != RECORD_TERMINATOR,
    ensures
        segments_of(s).len() == 0,
        decoded_records(s) == Seq::<RecordModel>::empty(),
{
    lemma_find_byte_bounds(s, RECORD_TERMINATOR, 0);
    assert(find_byte(s, RECORD_TERMINATOR, 0) >= s.len()) by {
        if find_byte(s, RECORD_TERMINATOR, 0) < s.len() {
            assert(s[find_byte(s, RECORD_TERMINATOR, 0)] == RECORD_TERMINATOR);
        }
    }
    assert(segments_of(s) =~= Seq::<Seq<u8>>::empty());
    reveal_with_fuel(Seq::filter_map, 1);
    assert(decoded_records(s) =~= Seq::<RecordModel>::empty());
}

// ---------------------------------------------------------------------------
// Trusted calls
// ---------------------------------------------------------------------------

/// Relies on `marc::Record::from_vec` and `marc::Record::fields`: on a
/// segment with a well-formed leader and directory, parsing succeeds and
/// the record's fields are exactly the directory entries' tags and data
/// slices (each entry's length counts the trailing field terminator, which
/// `fields` strips).
#[verifier::external_body]
fn marc_record_fields(seg: &Vec<u8>) -> (r: Vec<(Vec<u8>, Vec<u8>)>)
    requires
        well_formed(seg@),
    ensures
        r.deep_view() == fields_spec(seg@),
{
    let record = match marc::Record::from_vec(seg.clone()) {
        Ok(record) => record,
        Err(_) => return Vec::new(),
    };
    record.fields().map(|f| (f.get_tag().0.to_vec(), f.get_data::<[u8]>().to_vec())).collect()
}

/// Relies on `String::from_utf8`: it returns `Ok` exactly on valid UTF-8
/// input, and the returned string holds those very bytes.
#[verifier::external_body]
fn bytes_to_string(b: Vec<u8>) -> (r: Option<String>)
    ensures
        r is Some <==> valid_utf8(b@),
        r matches Some(s) ==> encode_utf8(s@) == b@,
{
    match String::from_utf8(b) {
        Ok(s) => Some(s),
        Err(_) => None,
    }
}

/// Turns bytes into the string they decode to, or nothing when they are
/// not valid UTF-8.
fn decoded_string(b: Vec<u8>) -> (r: Option<String>)
    ensures
        r is Some <==> valid_utf8(b@),
        r matches Some(s) ==> s@ == decode_utf8(b@),
{
    let ghost bs = b@;
    let r = bytes_to_string(b);
    proof {
        if r is Some {
            encode_utf8_decode_utf8(r.unwrap()@);
        }
    }
    r
}

// ---------------------------------------------------------------------------
// Executable checks
// ---------------------------------------------------------------------------

/// Copy of the bytes `v[a..b]`.
fn copy_range(v: &Vec<u8>, a: usize, b: usize) -> (r: Vec<u8>)
    requires
        a <= b <= v@.len(),
    ensures
        r@ == v@.subrange(a as int, b as int),
{
    let mut r: Vec<u8> = Vec::new();
    let mut i: usize = a;
    while i < b
        invariant
            a <= i <= b <= v@.len(),
            r@ =~= v@.subrange(a as int, i as int),
        decreases b - i,
    {
        r.push(v[i]);
        i += 1;
        proof {
            assert(r@ =~= v@.subrange(a as int, i as int));
        }
    }
    proof {
        assert(r@ =~= v@.subrange(a as int, b as int));
    }
    r
}

fn find_byte_exec(s: &Vec<u8>, v: u8, p: usize) -> (r: usize)
    requires
        p <= s@.len(),
    ensures
        r as int == find_byte(s@, v, p as int),
        p <= r <= s@.len(),
        r < s@.len() ==> s@[r as int] == v,
{
    let n = s.len();
    let mut i: usize = p;
    while i < n
        invariant
            p <= i <= n,
            n == s@.len(),
            find_byte(s@, v, p as int) == find_byte(s@, v, i as int),
        decreases n - i,
    {
        if s[i] == v {
            return i;
        }
        i += 1;
    }
    n
}

fn digits_check(s: &Vec<u8>, p: usize, n: usize) -> (b: bool)
    requires
        p + n <= s@.len(),
    ensures
        b == digits_at(s@, p as int, n as int),
{
    let slen = s.len();
    let mut k: usize = 0;
    while k < n
        invariant
            k <= n,
            slen == s@.len(),
            p + n <= s@.len(),
            forall|t: int| p <= t < p + k ==> dec_digit(#[trigger] s@[t]),
        decreases n - k,
    {
        let byte = s[p + k];
        if byte < 0x30 || byte > 0x39 {
            proof {
                assert(!dec_digit(s@[p + k]));
            }
            return false;
        }
        k += 1;
    }
    true
}

fn dec_value_exec(s: &Vec<u8>, p: usize, n: usize) -> (r: usize)
    requires
        p + n <= s@.len(),
        n <= 5,
        digits_at(s@, p as int, n as int),
    ensures
        r as int == dec_value(s@, p as int, n as int),
        r <= 99999,
{
    let slen = s.len();
    let mut acc: usize = 0;
    let mut k: usize = 0;
    while k < n
        invariant
            k <= n <= 5,
            slen == s@.len(),
            p + n <= s@.len(),
            digits_at(s@, p as int, n as int),
            acc as int == dec_value(s@, p as int, k as int),
        decreases n - k,
    {
        proof {
            assert(dec_digit(s@[p + k]));
            lemma_dec_value_bounds(s@, p as int, k as int);
            assert(acc <= 9999);
        }
        let d = s[p + k] - 0x30;
        acc = acc * 10 + (d as usize);
        k += 1;
    }
    proof {
        lemma_dec_value_bounds(s@, p as int, n as int);
    }
    acc
}

/// Whether a segment is well formed: the leader's declared length and base
/// address are sound, the directory parses, and every entry points inside
/// the segment.
pub fn check_segment(seg: &Vec<u8>) -> (b: bool)
    ensures
        b == well_formed(seg@),
{
    let n = seg.len();
    if n < 24 {
        return false;
    }
    if !digits_check(seg, 0, 5) {
        return false;
    }
    let len5 = dec_value_exec(seg, 0, 5);
    if len5 != n {
        return false;
    }
    if seg[n - 1] != RECORD_TERMINATOR {
        return false;
    }
    if !digits_check(seg, 12, 5) {
        return false;
    }
    let off = dec_value_exec(seg, 12, 5);
    if off < 24 || off > n {
        return false;
    }
    proof {
        assert(leader_ok(seg@));
    }
    let dirlen = off - 24;
    let count = dirlen / 12;
    let rem = dirlen % 12;
    if rem == 1 {
        if seg[off - 1] != FIELD_TERMINATOR {
            return false;
        }
    } else if rem != 0 {
        return false;
    }
    proof {
        assert(count as int == dir_entry_count(seg@));
        assert(12 * (count as int) <= dirlen as int) by (nonlinear_arith)
            requires
                count as int == dirlen as int / 12,
                dirlen >= 0,
        ;
    }
    let mut c: usize = 0;
    while c < count
        invariant
            c <= count,
            n == seg@.len(),
            leader_ok(seg@),
            off as int == base_address(seg@),
            24 + dirlen == off,
            off <= n,
            count as int == dir_entry_count(seg@),
            12 * (count as int) <= dirlen as int,
            forall|d: int| 0 <= d < c ==> #[trigger] entry_digits_ok(seg@, d),
            forall|d: int|
                0 <= d < c ==> 1 <= #[trigger] entry_len(seg@, d) && base_address(seg@) + entry_off(
                    seg@,
                    d,
                ) + entry_len(seg@, d) - 1 <= seg@.len(),
        decreases count - c,
    {
        proof {
            assert(12 * (c as int) + 12 <= 12 * (count as int)) by (nonlinear_arith)
                requires
                    (c as int) < (count as int),
            ;
        }
        let ebase = 24 + 12 * c;
        if !digits_check(seg, ebase + 3, 4) {
            proof {
                assert(!entry_digits_ok(seg@, c as int));
                assert(!dir_ok(seg@));
            }
            return false;
        }
        if !digits_check(seg, ebase + 7, 5) {
            proof {
                assert(!entry_digits_ok(seg@, c as int));
                assert(!dir_ok(seg@));
            }
            return false;
        }
        let flen = dec_value_exec(seg, ebase + 3, 4);
        let foff = dec_value_exec(seg, ebase + 7, 5);
        proof {
            assert(flen as int == entry_len(seg@, c as int));
            assert(foff as int == entry_off(seg@, c as int));
        }
        if flen < 1 {
            proof {
                assert(!entries_ok(seg@));
            }
            return false;
        }
        if foff + flen - 1 > n - off {
            proof {
                assert(base_address(seg@) + entry_off(seg@, c as int) + entry_len(seg@, c as int)
                    - 1 > seg@.len());
                assert(!entries_ok(seg@));
            }
            return false;
        }
        c += 1;
    }
    proof {
        assert(dir_ok(seg@));
        assert(entries_ok(seg@));
    }
    true
}

/// The subfields of a data field's raw bytes as subfield values, or
/// nothing when one of them is not valid UTF-8.
fn parse_subfields(data: &Vec<u8>) -> (r: Option<Vec<crate::record::SubField>>)
    ensures
        r is Some <==> subfields_convertible(data@),
        r matches Some(v) ==> v.deep_view() == subfields_spec(data@).map_values(
            |sf: (u8, Seq<u8>)| subfield_model(sf),
        ),
{
    let n = data.len();
    if n < 3 {
        let none: Vec<crate::record::SubField> = Vec::new();
        proof {
            assert(subfields_spec(data@) =~= Seq::<(u8, Seq<u8>)>::empty());
            assert(none.deep_view() =~= subfields_spec(data@).map_values(
                |sf: (u8, Seq<u8>)| subfield_model(sf),
            ));
        }
        return Some(none);
    }
    if data[2] != SUBFIELD_DELIMITER {
        let none: Vec<crate::record::SubField> = Vec::new();
        proof {
            assert(subfields_spec(data@) =~= Seq::<(u8, Seq<u8>)>::empty());
            assert(none.deep_view() =~= subfields_spec(data@).map_values(
                |sf: (u8, Seq<u8>)| subfield_model(sf),
            ));
        }
        return Some(none);
    }
    let mut out: Vec<crate::record::SubField> = Vec::new();
    let mut o: usize = 3;
    let ghost whole = sf_from(data@, 3);
    let ghost mut done: Seq<(u8, Seq<u8>)> = Seq::empty();
    proof {
        assert(subfields_spec(data@) == whole);
        assert(whole =~= done + sf_from(data@, 3));
    }
    loop
        invariant
            3 <= o <= n,
            n == data@.len(),
            whole == subfields_spec(data@),
            whole =~= done + sf_from(data@, o as int),
            out@.len() == done.len(),
            out.deep_view() =~= done.map_values(|sf: (u8, Seq<u8>)| subfield_model(sf)),
            forall|j: int|
                0 <= j < done.len() ==> valid_utf8(seq![(#[trigger] done[j]).0]) && valid_utf8(
                    done[j].1,
                ),
        decreases n - o,
    {
        if o >= n || data[o] == SUBFIELD_DELIMITER {
            proof {
                assert(sf_from(data@, o as int) =~= Seq::<(u8, Seq<u8>)>::empty());
                assert(whole =~= done);
                assert(subfields_convertible(data@));
            }
            return Some(out);
        }
        let ident = data[o];
        let q = find_byte_exec(data, SUBFIELD_DELIMITER, o + 1);
        let ghost cur: (u8, Seq<u8>) = (ident, data@.subrange(o as int + 1, q as int));
        proof {
            assert(sf_from(data@, o as int) == seq![cur] + (if (q as int) < data@.len() {
                sf_from(data@, q as int + 1)
            } else {
                Seq::<(u8, Seq<u8>)>::empty()
            }));
            assert(whole[done.len() as int] == cur);
        }
        let mut code_bytes: Vec<u8> = Vec::new();
        code_bytes.push(ident);
        proof {
            assert(code_bytes@ =~= seq![ident]);
        }
        let code = match decoded_string(code_bytes) {
            Some(code) => code,
            None => {
                proof {
                    assert(!subfields_convertible(data@));
                }
                return None;
            },
        };
        let value_bytes = copy_range(data, o + 1, q);
        let value: Option<String> = if value_bytes.len() == 0 {
            None
        } else {
            match decoded_string(value_bytes) {
                Some(value) => Some(value),
                None => {
                    proof {
                        assert(!subfields_convertible(data@));
                    }
                    return None;
                },
            }
        };
        let sf = crate::record::SubField { code, value };
        let ghost prev = out.deep_view();
        proof {
            assert(sf.deep_view() == subfield_model(cur));
        }
        out.push(sf);
        proof {
            assert(out.deep_view() =~= prev.push(sf.deep_view()));
            assert(out.deep_view() =~= (done + seq![cur]).map_values(
                |sf: (u8, Seq<u8>)| subfield_model(sf),
            ));
        }
        let ghost done_next = done + seq![cur];
        proof {
            done = done_next;
            assert(whole =~= done + (if (q as int) < data@.len() {
                sf_from(data@, q as int + 1)
            } else {
                Seq::<(u8, Seq<u8>)>::empty()
            }));
        }
        if q < n {
            o = q + 1;
            proof {
                assert(whole =~= done + sf_from(data@, o as int));
            }
        } else {
            o = n;
            proof {
                assert(sf_from(data@, o as int) =~= Seq::<(u8, Seq<u8>)>::empty());
                assert(whole =~= done + sf_from(data@, o as int));
            }
        }
    }
}

/// Decodes one terminated segment: its record, or nothing when the
/// segment is malformed or holds text that is not valid UTF-8.
pub fn decode_segment(seg: &Vec<u8>) -> (r: Option<RecordXml>)
    ensures
        r is Some <==> segment_decodes(seg@),
        r matches Some(rec) ==> rec.deep_view() == record_model(seg@),
{
    if !check_segment(seg) {
        return None;
    }
    let fields = marc_record_fields(seg);
    let ghost fs = fields_spec(seg@);
    let mut controls: Vec<crate::record::ControlField> = Vec::new();
    let mut datas: Vec<crate::record::DataField> = Vec::new();
    let n = fields.len();
    proof {
        assert(fields.deep_view().len() == fs.len());
        assert(controls.deep_view() =~= controls_model(fs.take(0)));
        assert(datas.deep_view() =~= datafields_model(fs.take(0)));
    }
    let mut i: usize = 0;
    while i < n
        invariant
            i <= n,
            n == fields@.len(),
            well_formed(seg@),
            fs == fields_spec(seg@),
            fields.deep_view() == fs,
            n == fs.len(),
            forall|t: int| 0 <= t < i ==> field_convertible(#[trigger] fs[t]),
            controls.deep_view() == controls_model(fs.take(i as int)),
            datas.deep_view() == datafields_model(fs.take(i as int)),
        decreases n - i,
    {
        let pair = &fields[i];
        proof {
            assert(fields.deep_view()[i as int] == fs[i as int]);
            assert(pair.deep_view() == fs[i as int]);
            assert(pair.0.deep_view() =~= pair.0@);
            assert(pair.1.deep_view() =~= pair.1@);
            assert(pair.0@ == fs[i as int].0);
            assert(pair.1@ == fs[i as int].1);
            assert(fs[i as int] == (entry_tag(seg@, i as int), field_data(seg@, i as int)));
            assert(fs[i as int].0.len() == 3);
            assert(fs.take(i as int + 1).drop_last() =~= fs.take(i as int));
            assert(fs.take(i as int + 1).last() == fs[i as int]);
        }
        let tag_bytes = copy_range(&pair.0, 0, pair.0.len());
        proof {
            assert(tag_bytes@ =~= fs[i as int].0);
        }
        let tag_str = match decoded_string(tag_bytes) {
            Some(t) => t,
            None => {
                proof {
                    assert(!field_convertible(fs[i as int]));
                    assert(!segment_decodes(seg@));
                }
                return None;
            },
        };
        let is_control = pair.0[0] == 0x30 && pair.0[1] == 0x30;
        proof {
            assert(is_control == is_control_tag(fs[i as int].0));
        }
        if is_control {
            let data_len = pair.1.len();
            let value: Option<String> = if data_len == 0 {
                None
            } else {
                let data_bytes = copy_range(&pair.1, 0, data_len);
                proof {
                    assert(data_bytes@ =~= fs[i as int].1);
                }
                match decoded_string(data_bytes) {
                    Some(v) => Some(v),
                    None => {
                        proof {
                            assert(!field_convertible(fs[i as int]));
                            assert(!segment_decodes(seg@));
                        }
                        return None;
                    },
                }
            };
            let cf = crate::record::ControlField { tag: tag_str, value };
            let ghost prevc = controls.deep_view();
            proof {
                assert(cf.deep_view() == control_field_model(fs[i as int]));
            }
            controls.push(cf);
            proof {
                assert(controls.deep_view() =~= prevc.push(control_field_model(fs[i as int])));
                assert(controls.deep_view() == controls_model(fs.take(i as int + 1)));
                assert(datas.deep_view() == datafields_model(fs.take(i as int + 1)));
                assert(field_convertible(fs[i as int]));
            }
        } else {
            let subfields = match parse_subfields(&pair.1) {
                Some(v) => v,
                None => {
                    proof {
                        assert(!field_convertible(fs[i as int]));
                        assert(!segment_decodes(seg@));
                    }
                    return None;
                },
            };
            let df = crate::record::DataField { tag: tag_str, subfields };
            let ghost prevd = datas.deep_view();
            proof {
                assert(df.deep_view() == data_field_model(fs[i as int]));
            }
            datas.push(df);
            proof {
                assert(datas.deep_view() =~= prevd.push(data_field_model(fs[i as int])));
                assert(datas.deep_view() == datafields_model(fs.take(i as int + 1)));
                assert(controls.deep_view() == controls_model(fs.take(i as int + 1)));
                assert(field_convertible(fs[i as int]));
            }
        }
        i += 1;
    }
    let rec = RecordXml { controlfields: controls, datafields: datas };
    proof {
        assert(fs.take(n as int) =~= fs);
        assert(rec.deep_view() == record_model(seg@));
        assert(segment_decodes(seg@));
    }
    Some(rec)
}

/// Decodes a whole content stream: splits it at the record terminators,
/// decodes each terminated segment, and skips the segments that fail, so
/// that one bad record never aborts the batch.
pub fn load_records(content: &Vec<u8>) -> (r: Vec<RecordXml>)
    ensures
        r.deep_view() == decoded_records(content@),
{
    let n = content.len();
    let mut segs: Vec<Vec<u8>> = Vec::new();
    let mut p: usize = 0;
    proof {
        assert(segs.deep_view() =~= Seq::<Seq<u8>>::empty());
    }
    while p < n
        invariant
            p <= n,
            n == content@.len(),
            segments_of(content@) =~= segs.deep_view() + segments_from(content@, p as int),
        decreases n - p,
    {
        let t = find_byte_exec(content, RECORD_TERMINATOR, p);
        if t == n {
            proof {
                assert(segments_from(content@, p as int) =~= Seq::<Seq<u8>>::empty());
                assert(segments_from(content@, n as int) =~= Seq::<Seq<u8>>::empty());
            }
            p = n;
        } else {
            let seg = copy_range(content, p, t + 1);
            let ghost prevs = segs.deep_view();
            proof {
                assert(seg.deep_view() =~= content@.subrange(p as int, t as int + 1));
            }
            segs.push(seg);
            proof {
                assert(segs.deep_view() =~= prevs.push(
                    content@.subrange(p as int, t as int + 1),
                ));
                assert(segments_from(content@, p as int) == seq![
                    content@.subrange(p as int, t as int + 1),
                ] + segments_from(content@, t as int + 1));
                assert(segments_of(content@) =~= segs.deep_view() + segments_from(
                    content@,
                    t as int + 1,
                ));
            }
            p = t + 1;
        }
    }
    proof {
        assert(segments_from(content@, p as int) =~= Seq::<Seq<u8>>::empty());
        assert(segments_of(content@) =~= segs.deep_view());
    }
    let ghost sseq = segs.deep_view();
    let mut records: Vec<RecordXml> = Vec::new();
    let m = segs.len();
    proof {
        assert(sseq.len() == m);
        assert(sseq.take(0) =~= Seq::<Seq<u8>>::empty());
        assert(records.deep_view() =~= sseq.take(0).filter_map(seg_decode_fn()));
    }
    let mut i: usize = 0;
    while i < m
        invariant
            i <= m,
            m == segs@.len(),
            sseq == segs.deep_view(),
            sseq.len() == m,
            segments_of(content@) == sseq,
            records.deep_view() =~= sseq.take(i as int).filter_map(seg_decode_fn()),
        decreases m - i,
    {
        let seg = &segs[i];
        proof {
            assert(sseq[i as int] == seg.deep_view());
            assert(seg.deep_view() =~= seg@);
            sseq.lemma_filter_map_take_succ(seg_decode_fn(), i as int);
        }
        match decode_segment(seg) {
            Some(rec) => {
                let ghost prevr = records.deep_view();
                proof {
                    assert(seg_decode(seg@) == Option::Some(rec.deep_view()));
                }
                records.push(rec);
                proof {
                    assert(records.deep_view() =~= prevr.push(rec.deep_view()));
                    assert(records.deep_view() =~= sseq.take(i as int + 1).filter_map(
                        seg_decode_fn(),
                    ));
                }
            },
            None => {
                proof {
                    assert(seg_decode(seg@) is None);
                    assert(records.deep_view() =~= sseq.take(i as int + 1).filter_map(
                        seg_decode_fn(),
                    ));
                }
            },
        }
        i += 1;
    }
    proof {
        assert(sseq.take(m as int) =~= sseq);
        assert(records.deep_view() =~= decoded_records(content@));
    }
    records
}

} // verus!
