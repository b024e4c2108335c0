//! Reading telemetry messages back from their wire form, and the proof
//! that reading what the writer produced gives the message back.
//!
//! Decoding skips fields of unknown numbers, takes the last of repeated
//! scalar fields, merges repeated sections, and accepts absent sections as
//! empty. A known field of the wrong wire type makes the payload malformed.
use vstd::prelude::*;
use vstd::utf8::{encode_utf8, decode_utf8, valid_utf8, encode_utf8_valid_utf8, encode_utf8_decode_utf8};
use crate::sensors::{SensorData, SensorValue, ReadingView, SnapshotView, snapshots_view, all_wf, upsert, names_unique, has_reading, strings_view};
use crate::wire::{FIELD_NUMBER_MAX, WireValue, WireField, Status, LogRecord, RecordView, TelemetryMessage, MessageView,
    varint, le32, wire_code, tag_bytes, payload_bytes, field_bytes, fields_bytes, str_field, msg_field, records_view,
    reading_fields, snapshot_fields, sensor_section_fields, record_fields, log_section_fields, message_fields, message_bytes};

verus! {

/// Most bytes a varint of 64 bits takes.
pub const VARINT_MAX_LEN: usize = 10;

/// Value and length of the varint at the front of `b`, reading at most
/// `budget` bytes.
pub open spec fn parse_varint(b: Seq<u8>, budget: nat) -> Option<(nat, nat)>
    decreases budget,
{
    if budget == 0 || b.len() == 0 {
        None
    } else if b[0] < 128 {
        Some((b[0] as nat, 1))
    } else {
        match parse_varint(b.drop_first(), (budget - 1) as nat) {
            Some((v, n)) => Some((((b[0] - 128) + 128 * v) as nat, n + 1)),
            None => None,
        }
    }
}

/// The varint at the front of `b` when it has at most ten bytes and fits
/// in 64 bits, with its length.
pub open spec fn parse_u64(b: Seq<u8>) -> Option<(u64, nat)> {
    match parse_varint(b, VARINT_MAX_LEN as nat) {
        Some((v, n)) => if v <= u64::MAX { Some((v as u64, n)) } else { None },
        None => None,
    }
}

proof fn lemma_parse_varint_len(b: Seq<u8>, budget: nat)
    ensures
        parse_varint(b, budget) matches Some((v, n)) ==> 1 <= n <= b.len() && n <= budget,
    decreases budget,
{
    if budget > 0 && b.len() > 0 && b[0] >= 128 {
        lemma_parse_varint_len(b.drop_first(), (budget - 1) as nat);
    }
}

proof fn lemma_varint_len(v: nat, k: nat)
    requires
        v < pow128(k),
        k >= 1,
    ensures
        varint(v).len() <= k,
        varint(v).len() >= 1,
    decreases v,
{
    if v >= 128 {
        assert(v / 128 < pow128((k - 1) as nat)) by {
            assert(pow128(k) == 128 * pow128((k - 1) as nat));
            assert(v < 128 * pow128((k - 1) as nat));
        }
        assert(k - 1 >= 1) by {
            if k - 1 == 0 {
                assert(pow128(0) == 1);
            }
        }
        lemma_varint_len(v / 128, (k - 1) as nat);
    }
}

pub open spec fn pow128(k: nat) -> nat
    decreases k,
{
    if k == 0 { 1 } else { 128 * pow128((k - 1) as nat) }
}

proof fn lemma_u64_below_pow128()
    ensures
        u64::MAX < pow128(10),
{
    reveal_with_fuel(pow128, 11);
    assert(pow128(10) == 1180591620717411303424nat);
}

proof fn lemma_parse_varint_of(v: nat, rest: Seq<u8>, budget: nat)
    requires
        varint(v).len() <= budget,
    ensures
        parse_varint(varint(v) + rest, budget) == Some((v, varint(v).len())),
    decreases v,
{
    let b = varint(v) + rest;
    if v < 128 {
        assert(b[0] == v as u8);
    } else {
        let low = (v % 128 + 128) as u8;
        assert(b[0] == low);
        assert(b.drop_first() =~= varint(v / 128) + rest);
        lemma_parse_varint_of(v / 128, rest, (budget - 1) as nat);
        assert((low - 128) + 128 * (v / 128) == v);
    }
}

proof fn lemma_parse_u64_of(v: u64, rest: Seq<u8>)
    ensures
        parse_u64(varint(v as nat) + rest) == Some((v, varint(v as nat).len())),
        varint(v as nat).len() <= VARINT_MAX_LEN,
{
    lemma_u64_below_pow128();
    lemma_varint_len(v as nat, 10);
    lemma_parse_varint_of(v as nat, rest, 10);
}

fn read_varint(b: &[u8], pos: usize, end: usize, budget: usize) -> (r: Option<(u64, usize)>)
    requires
        pos <= end <= b@.len(),
        budget <= VARINT_MAX_LEN,
    ensures
        match parse_varint(b@.subrange(pos as int, end as int), budget as nat) {
            Some((v, n)) => if v <= u64::MAX { r == Some((v as u64, (pos + n) as usize)) } else { r is None },
            None => r is None,
        },
    decreases budget,
{
    let ghost sb = b@.subrange(pos as int, end as int);
    if budget == 0 || pos >= end {
        return None;
    }
    let byte = b[pos];
    assert(sb[0] == byte);
    if byte < 128 {
        return Some((byte as u64, pos + 1));
    }
    assert(sb.drop_first() =~= b@.subrange(pos + 1, end as int));
    let inner = read_varint(b, pos + 1, end, budget - 1);
    proof {
        lemma_parse_varint_len(sb.drop_first(), (budget - 1) as nat);
    }
    match inner {
        Some((v, q)) => {
            let low = (byte - 128) as u64;
            if v > (u64::MAX - low) / 128 {
                proof {
                    assert((v as nat) * 128 + low > u64::MAX) by (nonlinear_arith)
                        requires v > (u64::MAX - low) / 128, low <= 127;
                }
                None
            } else {
                proof {
                    assert(128 * (v as nat) + low <= u64::MAX) by (nonlinear_arith)
                        requires v <= (u64::MAX - low) / 128, low <= 127;
                }
                Some((low + 128 * v, q))
            }
        },
        None => {
            proof {
                if let Some((v, n)) = parse_varint(sb.drop_first(), (budget - 1) as nat) {
                    assert(v > u64::MAX);
                    assert((byte - 128) + 128 * v > u64::MAX) by (nonlinear_arith)
                        requires v > u64::MAX;
                }
            }
            None
        },
    }
}

fn read_u64(b: &[u8], pos: usize, end: usize) -> (r: Option<(u64, usize)>)
    requires
        pos <= end <= b@.len(),
    ensures
        match parse_u64(b@.subrange(pos as int, end as int)) {
            Some((v, n)) => r matches Some((x, q)) && x == v && q == pos + n && 1 <= n <= end - pos,
            None => r is None,
        },
{
    proof {
        lemma_parse_varint_len(b@.subrange(pos as int, end as int), VARINT_MAX_LEN as nat);
    }
    read_varint(b, pos, end, VARINT_MAX_LEN)
}

/// The number held by four little-endian bytes.
pub open spec fn from_le32(b: Seq<u8>) -> u32 {
    (b[0] + 256 * b[1] + 65536 * b[2] + 16777216 * b[3]) as u32
}

/// The field at the front of `b`, with its length. Field number zero and
/// wire types other than varint, fixed32 and length-delimited are refused.
pub open spec fn parse_field(b: Seq<u8>) -> Option<(WireField, nat)> {
    match parse_u64(b) {
        None => None,
        Some((t, n)) => {
            let number = (t / 8) as nat;
            let code = t % 8;
            let rest = b.skip(n as int);
            if number == 0 {
                None
            } else if code == 0 {
                match parse_u64(rest) {
                    Some((v, m)) => Some((WireField { number, value: WireValue::Varint(v as nat) }, n + m)),
                    None => None,
                }
            } else if code == 5 {
                if rest.len() >= 4 {
                    Some((WireField { number, value: WireValue::Fixed32(from_le32(rest)) }, n + 4))
                } else {
                    None
                }
            } else if code == 2 {
                match parse_u64(rest) {
                    Some((len, m)) => if m + len <= rest.len() {
                        Some((WireField { number, value: WireValue::Bytes(rest.subrange(m as int, m + len)) }, (n + m + len) as nat))
                    } else {
                        None
                    },
                    None => None,
                }
            } else {
                None
            }
        },
    }
}

/// The fields that make up `b`, in order; `None` when `b` is not a
/// sequence of fields.
pub open spec fn parse_fields(b: Seq<u8>) -> Option<Seq<WireField>>
    decreases b.len(),
{
    if b.len() == 0 {
        Some(Seq::empty())
    } else {
        match parse_field(b) {
            Some((f, n)) => if 0 < n <= b.len() {
                match parse_fields(b.skip(n as int)) {
                    Some(fs) => Some(seq![f] + fs),
                    None => None,
                }
            } else {
                None
            },
            None => None,
        }
    }
}

/// A field that the writer can produce and the reader reads back.
pub open spec fn field_ok(f: WireField) -> bool {
    &&& 1 <= f.number <= FIELD_NUMBER_MAX
    &&& match f.value {
        WireValue::Varint(v) => v <= u64::MAX,
        WireValue::Fixed32(_) => true,
        WireValue::Bytes(b) => b.len() <= u64::MAX,
    }
}

proof fn lemma_le32(x: u32)
    ensures
        from_le32(le32(x)) == x,
{
    let b0 = x % 256;
    let b1 = (x / 256) % 256;
    let b2 = (x / 65536) % 256;
    let b3 = x / 16777216;
    assert(b0 + 256 * b1 + 65536 * b2 + 16777216 * b3 == x) by (bit_vector)
        requires b0 == x % 256, b1 == (x / 256) % 256, b2 == (x / 65536) % 256, b3 == x / 16777216;
    assert(b3 < 256) by (bit_vector)
        requires b3 == x / 16777216;
}

proof fn lemma_parse_field_of(f: WireField, rest: Seq<u8>)
    requires
        field_ok(f),
    ensures
        parse_field(field_bytes(f) + rest) == Some((f, field_bytes(f).len())),
{
    let code = wire_code(f.value);
    let t = (f.number * 8 + code) as u64;
    assert(f.number * 8 + code <= u64::MAX);
    let b = field_bytes(f) + rest;
    let tb = tag_bytes(f.number, code);
    assert(b =~= tb + (payload_bytes(f.value) + rest));
    lemma_parse_u64_of(t, payload_bytes(f.value) + rest);
    assert(t / 8 == f.number && t % 8 == code) by {
        assert((f.number * 8 + code) / 8 == f.number);
        assert((f.number * 8 + code) % 8 == code);
    }
    let r = b.skip(tb.len() as int);
    assert(r =~= payload_bytes(f.value) + rest);
    match f.value {
        WireValue::Varint(v) => {
            lemma_parse_u64_of(v as u64, rest);
            assert(b.len() == field_bytes(f).len() + rest.len());
        },
        WireValue::Fixed32(x) => {
            lemma_le32(x);
            assert(r.take(4) =~= le32(x));
            assert(from_le32(r) == from_le32(le32(x)));
        },
        WireValue::Bytes(bs) => {
            let lb = varint(bs.len());
            assert(r =~= lb + (bs + rest));
            lemma_parse_u64_of(bs.len() as u64, bs + rest);
            assert(r.subrange(lb.len() as int, (lb.len() + bs.len()) as int) =~= bs);
        },
    }
}

proof fn lemma_fields_bytes_cons(fs: Seq<WireField>)
    requires
        fs.len() > 0,
    ensures
        fields_bytes(fs) == field_bytes(fs[0]) + fields_bytes(fs.drop_first()),
{
    let g = |f: WireField| field_bytes(f);
    assert(fs.map_values(g).drop_first() =~= fs.drop_first().map_values(g));
}

proof fn lemma_parse_fields_of(fs: Seq<WireField>)
    requires
        forall|i: int| 0 <= i < fs.len() ==> field_ok(#[trigger] fs[i]),
    ensures
        parse_fields(fields_bytes(fs)) == Some(fs),
    decreases fs.len(),
{
    let b = fields_bytes(fs);
    if fs.len() == 0 {
        assert(b =~= Seq::<u8>::empty());
        assert(Seq::<WireField>::empty() =~= fs);
    } else {
        lemma_fields_bytes_cons(fs);
        let head = field_bytes(fs[0]);
        let tail = fields_bytes(fs.drop_first());
        assert(field_ok(fs[0]));
        lemma_parse_field_of(fs[0], tail);
        lemma_parse_u64_of((fs[0].number * 8 + wire_code(fs[0].value)) as u64, payload_bytes(fs[0].value));
        assert(head.len() > 0);
        assert(b.skip(head.len() as int) =~= tail);
        lemma_parse_fields_of(fs.drop_first());
        assert(seq![fs[0]] + fs.drop_first() =~= fs);
    }
}

proof fn lemma_parse_field_len(b: Seq<u8>)
    ensures
        parse_field(b) matches Some((f, n)) ==> 1 <= n <= b.len(),
{
    lemma_parse_varint_len(b, VARINT_MAX_LEN as nat);
    if let Some((t, n)) = parse_u64(b) {
        let rest = b.skip(n as int);
        lemma_parse_varint_len(rest, VARINT_MAX_LEN as nat);
    }
}

pub open spec fn prepend_fields(done: Seq<WireField>, o: Option<Seq<WireField>>) -> Option<Seq<WireField>> {
    match o {
        Some(rest) => Some(done + rest),
        None => None,
    }
}

/// One parsed field: ranges point into the byte slice that was read.
enum FieldValue {
    Varint(u64),
    Fixed32(u32),
    Bytes(usize, usize),
}

struct Field {
    number: u64,
    value: FieldValue,
}

spec fn field_of(f: Field, b: Seq<u8>) -> WireField {
    WireField {
        number: f.number as nat,
        value: match f.value {
            FieldValue::Varint(v) => WireValue::Varint(v as nat),
            FieldValue::Fixed32(x) => WireValue::Fixed32(x),
            FieldValue::Bytes(s, e) => WireValue::Bytes(b.subrange(s as int, e as int)),
        },
    }
}

spec fn field_within(f: Field, pos: int, end: int) -> bool {
    match f.value {
        FieldValue::Bytes(s, e) => pos <= s <= e <= end,
        _ => true,
    }
}

fn next_field(b: &[u8], pos: usize, end: usize) -> (r: Option<(Field, usize)>)
    requires
        pos <= end <= b@.len(),
    ensures
        match parse_field(b@.subrange(pos as int, end as int)) {
            Some((f, n)) => r matches Some((g, q)) && field_of(g, b@) == f && q == pos + n
                && field_within(g, pos as int, end as int),
            None => r is None,
        },
{
    let ghost sb = b@.subrange(pos as int, end as int);
    let (t, tag_end) = match read_u64(b, pos, end) {
        Some(x) => x,
        None => return None,
    };
    proof {
        lemma_parse_varint_len(sb, VARINT_MAX_LEN as nat);
        assert(sb.skip(tag_end - pos) =~= b@.subrange(tag_end as int, end as int));
    }
    let number = t / 8;
    let code = t % 8;
    if number == 0 {
        return None;
    }
    if code == 0 {
        match read_u64(b, tag_end, end) {
            Some((v, head_end)) => {
                assert(parse_u64(sb) == Some((t, (tag_end - pos) as nat)));
                assert(parse_u64(sb.skip(tag_end - pos)) == Some((v, (head_end - tag_end) as nat)));
                assert(parse_field(sb) == Some((WireField { number: number as nat, value: WireValue::Varint(v as nat) }, (head_end - pos) as nat)));
                Some((Field { number, value: FieldValue::Varint(v) }, head_end))
            },
            None => None,
        }
    } else if code == 5 {
        if end - tag_end >= 4 {
            let x: u64 = b[tag_end] as u64 + 256 * (b[tag_end + 1] as u64) + 65536 * (b[tag_end + 2] as u64)
                + 16777216 * (b[tag_end + 3] as u64);
            proof {
                let rest = sb.skip(tag_end - pos);
                assert(rest[0] == b@[tag_end as int] && rest[1] == b@[tag_end + 1] && rest[2] == b@[tag_end + 2] && rest[3] == b@[tag_end + 3]);
                assert(from_le32(rest) == x as u32);
            }
            Some((Field { number, value: FieldValue::Fixed32(x as u32) }, tag_end + 4))
        } else {
            None
        }
    } else if code == 2 {
        match read_u64(b, tag_end, end) {
            Some((len, head_end)) => {
                proof {
                    lemma_parse_varint_len(b@.subrange(tag_end as int, end as int), VARINT_MAX_LEN as nat);
                }
                if len <= (end - head_end) as u64 {
                    let e = head_end + len as usize;
                    proof {
                        assert(parse_u64(sb) == Some((t, (tag_end - pos) as nat)));
                        assert(parse_u64(sb.skip(tag_end - pos)) == Some((len, (head_end - tag_end) as nat)));
                        assert(b@.subrange(tag_end as int, end as int).subrange(head_end - tag_end, e - tag_end)
                            =~= b@.subrange(head_end as int, e as int));
                    }
                    Some((Field { number, value: FieldValue::Bytes(head_end, e) }, e))
                } else {
                    None
                }
            },
            None => None,
        }
    } else {
        None
    }
}

/// Folds `apply` over the fields from first to last, starting from `init`;
/// `None` as soon as a step refuses.
pub open spec fn fold_fields<A>(fs: Seq<WireField>, init: A, apply: spec_fn(A, WireField) -> Option<A>) -> Option<A>
    decreases fs.len(),
{
    if fs.len() == 0 {
        Some(init)
    } else {
        match fold_fields(fs.drop_last(), init, apply) {
            Some(acc) => apply(acc, fs.last()),
            None => None,
        }
    }
}

proof fn lemma_fold_push<A>(fs: Seq<WireField>, f: WireField, init: A, apply: spec_fn(A, WireField) -> Option<A>)
    ensures
        fold_fields(fs.push(f), init, apply) == match fold_fields(fs, init, apply) {
            Some(acc) => apply(acc, f),
            None => None,
        },
{
    assert(fs.push(f).drop_last() =~= fs);
}

proof fn lemma_fold_concat<A>(fs: Seq<WireField>, gs: Seq<WireField>, init: A, apply: spec_fn(A, WireField) -> Option<A>)
    ensures
        fold_fields(fs + gs, init, apply) == match fold_fields(fs, init, apply) {
            Some(acc) => fold_fields(gs, acc, apply),
            None => None,
        },
    decreases gs.len(),
{
    if gs.len() == 0 {
        assert(fs + gs =~= fs);
    } else {
        lemma_fold_concat(fs, gs.drop_last(), init, apply);
        assert((fs + gs).drop_last() =~= fs + gs.drop_last());
    }
}

/// Consuming one more field keeps the relation between the whole byte range
/// and the fields read so far.
proof fn lemma_parse_step(b: Seq<u8>, start: int, pos: int, end: int, done: Seq<WireField>, f: WireField, n: nat)
    requires
        0 <= start <= pos < end <= b.len(),
        parse_field(b.subrange(pos, end)) == Some((f, n)),
        parse_fields(b.subrange(start, end)) == prepend_fields(done, parse_fields(b.subrange(pos, end))),
    ensures
        pos + n <= end,
        parse_fields(b.subrange(start, end)) == prepend_fields(done.push(f), parse_fields(b.subrange(pos + n, end))),
{
    let sb = b.subrange(pos, end);
    lemma_parse_field_len(sb);
    assert(sb.skip(n as int) =~= b.subrange(pos + n, end));
    match parse_fields(b.subrange(pos + n, end)) {
        Some(rest) => {
            assert(done + (seq![f] + rest) =~= done.push(f) + rest);
        },
        None => {},
    }
}

proof fn lemma_fold_fail<A>(b: Seq<u8>, start: int, pos: int, end: int, done: Seq<WireField>, init: A, apply: spec_fn(A, WireField) -> Option<A>)
    requires
        0 <= start <= pos <= end <= b.len(),
        parse_fields(b.subrange(start, end)) == prepend_fields(done, parse_fields(b.subrange(pos, end))),
        fold_fields(done, init, apply) is None,
    ensures
        match parse_fields(b.subrange(start, end)) {
            Some(fs) => fold_fields(fs, init, apply) is None,
            None => true,
        },
{
    if let Some(rest) = parse_fields(b.subrange(pos, end)) {
        lemma_fold_concat(done, rest, init, apply);
    }
}

/// The characters that `b` encodes, when it is well-formed UTF-8.
pub open spec fn str_of(b: Seq<u8>) -> Option<Seq<char>> {
    if valid_utf8(b) {
        Some(decode_utf8(b))
    } else {
        None
    }
}

/// Relies on std's `str::from_utf8`: it accepts exactly the well-formed
/// UTF-8 byte strings, and the string holds the characters they encode.
#[verifier::external_body]
fn utf8_string(b: &[u8]) -> (r: Option<String>)
    ensures
        r is Some <==> valid_utf8(b@),
        r matches Some(s) ==> s@ == decode_utf8(b@),
{
    match std::str::from_utf8(b) {
        Ok(s) => Some(s.to_owned()),
        Err(_) => None,
    }
}

fn field_string(b: &[u8], f: &Field, pos: usize, end: usize) -> (r: Option<String>)
    requires
        end <= b@.len(),
        field_within(*f, pos as int, end as int),
    ensures
        match field_of(*f, b@).value {
            WireValue::Bytes(x) => match str_of(x) {
                Some(t) => r matches Some(u) && u@ == t,
                None => r is None,
            },
            _ => r is None,
        },
{
    match f.value {
        FieldValue::Bytes(s, e) => utf8_string(&b[s..e]),
        _ => None,
    }
}

pub open spec fn empty_reading() -> ReadingView {
    ReadingView { name: Seq::empty(), value: 0, unit: Seq::empty() }
}

pub open spec fn reading_apply(acc: ReadingView, f: WireField) -> Option<ReadingView> {
    if f.number == 1 || f.number == 3 {
        match f.value {
            WireValue::Bytes(b) => match str_of(b) {
                Some(s) => if f.number == 1 { Some(ReadingView { name: s, ..acc }) } else { Some(ReadingView { unit: s, ..acc }) },
                None => None,
            },
            _ => None,
        }
    } else if f.number == 2 {
        match f.value {
            WireValue::Fixed32(x) => Some(ReadingView { value: x, ..acc }),
            _ => None,
        }
    } else {
        Some(acc)
    }
}

pub open spec fn reading_step() -> spec_fn(ReadingView, WireField) -> Option<ReadingView> {
    |a: ReadingView, f: WireField| reading_apply(a, f)
}

/// The reading that `b` encodes.
pub open spec fn decode_reading(b: Seq<u8>) -> Option<ReadingView> {
    match parse_fields(b) {
        Some(fs) => fold_fields(fs, empty_reading(), reading_step()),
        None => None,
    }
}

fn read_reading(b: &[u8], start: usize, end: usize) -> (r: Option<SensorValue>)
    requires
        start <= end <= b@.len(),
    ensures
        match decode_reading(b@.subrange(start as int, end as int)) {
            Some(v) => r matches Some(x) && x@ == v,
            None => r is None,
        },
{
    let mut name = String::new();
    let mut value: u32 = 0;
    let mut unit = String::new();
    let mut pos = start;
    let ghost mut done: Seq<WireField> = Seq::empty();
    assert(done + Seq::<WireField>::empty() =~= done);
    while pos < end
        invariant
            start <= pos <= end <= b@.len(),
            parse_fields(b@.subrange(start as int, end as int)) == prepend_fields(done, parse_fields(b@.subrange(pos as int, end as int))),
            fold_fields(done, empty_reading(), reading_step()) == Some(ReadingView { name: name@, value, unit: unit@ }),
        decreases end - pos,
    {
        let (f, q) = match next_field(b, pos, end) {
            Some(x) => x,
            None => return None,
        };
        let ghost wf = field_of(f, b@);
        proof {
            lemma_parse_step(b@, start as int, pos as int, end as int, done, wf, (q - pos) as nat);
            lemma_fold_push(done, wf, empty_reading(), reading_step());
        }
        if f.number == 1 || f.number == 3 {
            match field_string(b, &f, pos, end) {
                Some(t) => {
                    if f.number == 1 {
                        name = t;
                    } else {
                        unit = t;
                    }
                },
                None => {
                    proof { lemma_fold_fail(b@, start as int, q as int, end as int, done.push(wf), empty_reading(), reading_step()); }
                    return None;
                },
            }
        } else if f.number == 2 {
            match f.value {
                FieldValue::Fixed32(x) => {
                    value = x;
                },
                _ => {
                    proof { lemma_fold_fail(b@, start as int, q as int, end as int, done.push(wf), empty_reading(), reading_step()); }
                    return None;
                },
            }
        }
        proof {
            done = done.push(wf);
        }
        pos = q;
    }
    proof {
        assert(b@.subrange(pos as int, end as int) =~= Seq::<u8>::empty());
        assert(done + Seq::<WireField>::empty() =~= done);
    }
    Some(SensorValue { value_name: name, value, unit })
}

pub open spec fn empty_snapshot() -> SnapshotView {
    SnapshotView { name: Seq::empty(), types: Seq::empty(), location: Seq::empty(), readings: Seq::empty() }
}

pub open spec fn snapshot_apply(acc: SnapshotView, f: WireField) -> Option<SnapshotView> {
    if 1 <= f.number <= 3 {
        match f.value {
            WireValue::Bytes(b) => match str_of(b) {
                Some(s) => if f.number == 1 {
                    Some(SnapshotView { name: s, ..acc })
                } else if f.number == 2 {
                    Some(SnapshotView { types: acc.types.push(s), ..acc })
                } else {
                    Some(SnapshotView { location: s, ..acc })
                },
                None => None,
            },
            _ => None,
        }
    } else if f.number == 4 {
        match f.value {
            WireValue::Bytes(b) => match decode_reading(b) {
                Some(r) => Some(SnapshotView { readings: upsert(acc.readings, r.name, r.value, r.unit), ..acc }),
                None => None,
            },
            _ => None,
        }
    } else {
        Some(acc)
    }
}

pub open spec fn snapshot_step() -> spec_fn(SnapshotView, WireField) -> Option<SnapshotView> {
    |a: SnapshotView, f: WireField| snapshot_apply(a, f)
}

/// The snapshot that `b` encodes; a reading whose name was already read
/// replaces that reading's value.
pub open spec fn decode_snapshot(b: Seq<u8>) -> Option<SnapshotView> {
    match parse_fields(b) {
        Some(fs) => fold_fields(fs, empty_snapshot(), snapshot_step()),
        None => None,
    }
}

fn read_snapshot(b: &[u8], start: usize, end: usize) -> (r: Option<SensorData>)
    requires
        start <= end <= b@.len(),
    ensures
        match decode_snapshot(b@.subrange(start as int, end as int)) {
            Some(v) => r matches Some(x) && x@ == v && x.wf(),
            None => r is None,
        },
{
    let mut acc = SensorData::new("", Vec::new(), String::new());
    proof {
        assert(strings_view(Seq::<String>::empty()) =~= Seq::<Seq<char>>::empty());
        assert(""@ =~= Seq::<char>::empty()) by { reveal_strlit(""); }
        assert(acc@ == empty_snapshot());
    }
    let mut pos = start;
    let ghost mut done: Seq<WireField> = Seq::empty();
    assert(done + Seq::<WireField>::empty() =~= done);
    while pos < end
        invariant
            start <= pos <= end <= b@.len(),
            parse_fields(b@.subrange(start as int, end as int)) == prepend_fields(done, parse_fields(b@.subrange(pos as int, end as int))),
            fold_fields(done, empty_snapshot(), snapshot_step()) == Some(acc@),
            acc.wf(),
        decreases end - pos,
    {
        let (f, q) = match next_field(b, pos, end) {
            Some(x) => x,
            None => return None,
        };
        let ghost wf = field_of(f, b@);
        proof {
            lemma_parse_step(b@, start as int, pos as int, end as int, done, wf, (q - pos) as nat);
            lemma_fold_push(done, wf, empty_snapshot(), snapshot_step());
        }
        if 1 <= f.number && f.number <= 3 {
            match field_string(b, &f, pos, end) {
                Some(t) => {
                    if f.number == 1 {
                        acc.set_name(t);
                    } else if f.number == 2 {
                        acc.add_type(t);
                    } else {
                        acc.set_location(t);
                    }
                },
                None => {
                    proof { lemma_fold_fail(b@, start as int, q as int, end as int, done.push(wf), empty_snapshot(), snapshot_step()); }
                    return None;
                },
            }
        } else if f.number == 4 {
            let reading = match f.value {
                FieldValue::Bytes(s, e) => read_reading(b, s, e),
                _ => None,
            };
            match reading {
                Some(v) => {
                    acc.push_value(v.value_name.as_str(), v.value, v.unit.as_str());
                },
                None => {
                    proof { lemma_fold_fail(b@, start as int, q as int, end as int, done.push(wf), empty_snapshot(), snapshot_step()); }
                    return None;
                },
            }
        }
        proof {
            done = done.push(wf);
        }
        pos = q;
    }
    proof {
        assert(b@.subrange(pos as int, end as int) =~= Seq::<u8>::empty());
        assert(done + Seq::<WireField>::empty() =~= done);
    }
    Some(acc)
}

pub open spec fn sensor_section_apply(acc: Seq<SnapshotView>, f: WireField) -> Option<Seq<SnapshotView>> {
    if f.number == 1 {
        match f.value {
            WireValue::Bytes(b) => match decode_snapshot(b) {
                Some(s) => Some(acc.push(s)),
                None => None,
            },
            _ => None,
        }
    } else {
        Some(acc)
    }
}

pub open spec fn sensor_section_step() -> spec_fn(Seq<SnapshotView>, WireField) -> Option<Seq<SnapshotView>> {
    |a: Seq<SnapshotView>, f: WireField| sensor_section_apply(a, f)
}

/// The snapshots that a sensor section encodes, in order.
pub open spec fn decode_sensor_section(b: Seq<u8>) -> Option<Seq<SnapshotView>> {
    match parse_fields(b) {
        Some(fs) => fold_fields(fs, Seq::empty(), sensor_section_step()),
        None => None,
    }
}

/// Appends the snapshots of a sensor section to `acc`; `false` when the
/// section is malformed.
fn read_sensor_section(b: &[u8], start: usize, end: usize, acc: &mut Vec<SensorData>) -> (ok: bool)
    requires
        start <= end <= b@.len(),
        all_wf(old(acc)@),
    ensures
        all_wf(final(acc)@),
        match decode_sensor_section(b@.subrange(start as int, end as int)) {
            Some(ss) => ok && snapshots_view(final(acc)@) == snapshots_view(old(acc)@) + ss,
            None => !ok,
        },
{
    let mut pos = start;
    let ghost mut done: Seq<WireField> = Seq::empty();
    let ghost base = snapshots_view(acc@);
    assert(done + Seq::<WireField>::empty() =~= done);
    assert(base + Seq::<SnapshotView>::empty() =~= base);
    while pos < end
        invariant
            start <= pos <= end <= b@.len(),
            parse_fields(b@.subrange(start as int, end as int)) == prepend_fields(done, parse_fields(b@.subrange(pos as int, end as int))),
            fold_fields(done, Seq::empty(), sensor_section_step()) matches Some(ss) && snapshots_view(acc@) == base + ss,
            all_wf(acc@),
            base == snapshots_view(old(acc)@),
        decreases end - pos,
    {
        let (f, q) = match next_field(b, pos, end) {
            Some(x) => x,
            None => return false,
        };
        let ghost wf = field_of(f, b@);
        proof {
            lemma_parse_step(b@, start as int, pos as int, end as int, done, wf, (q - pos) as nat);
            lemma_fold_push(done, wf, Seq::<SnapshotView>::empty(), sensor_section_step());
        }
        if f.number == 1 {
            let snap = match f.value {
                FieldValue::Bytes(s, e) => read_snapshot(b, s, e),
                _ => None,
            };
            match snap {
                Some(x) => {
                    let ghost before = acc@;
                    acc.push(x);
                    proof {
                        assert(snapshots_view(acc@) =~= snapshots_view(before).push(x@));
                        let ss = fold_fields(done, Seq::empty(), sensor_section_step())->Some_0;
                        assert(base + ss.push(x@) =~= (base + ss).push(x@));
                        assert forall|i: int| 0 <= i < acc@.len() implies #[trigger] acc@[i].wf() by {
                            if i < before.len() {
                                assert(acc@[i] == before[i]);
                            }
                        }
                    }
                },
                None => {
                    proof { lemma_fold_fail(b@, start as int, q as int, end as int, done.push(wf), Seq::<SnapshotView>::empty(), sensor_section_step()); }
                    return false;
                },
            }
        }
        proof {
            done = done.push(wf);
        }
        pos = q;
    }
    proof {
        assert(b@.subrange(pos as int, end as int) =~= Seq::<u8>::empty());
        assert(done + Seq::<WireField>::empty() =~= done);
    }
    true
}

pub open spec fn empty_record() -> RecordView {
    RecordView { level: Seq::empty(), message: Seq::empty(), timestamp: 0 }
}

pub open spec fn record_apply(acc: RecordView, f: WireField) -> Option<RecordView> {
    if f.number == 1 || f.number == 2 {
        match f.value {
            WireValue::Bytes(b) => match str_of(b) {
                Some(s) => if f.number == 1 { Some(RecordView { level: s, ..acc }) } else { Some(RecordView { message: s, ..acc }) },
                None => None,
            },
            _ => None,
        }
    } else if f.number == 3 {
        match f.value {
            WireValue::Varint(v) => if v <= u64::MAX { Some(RecordView { timestamp: v as u64, ..acc }) } else { None },
            _ => None,
        }
    } else {
        Some(acc)
    }
}

pub open spec fn record_step() -> spec_fn(RecordView, WireField) -> Option<RecordView> {
    |a: RecordView, f: WireField| record_apply(a, f)
}

/// The log record that `b` encodes.
pub open spec fn decode_record(b: Seq<u8>) -> Option<RecordView> {
    match parse_fields(b) {
        Some(fs) => fold_fields(fs, empty_record(), record_step()),
        None => None,
    }
}

fn read_record(b: &[u8], start: usize, end: usize) -> (r: Option<LogRecord>)
    requires
        start <= end <= b@.len(),
    ensures
        match decode_record(b@.subrange(start as int, end as int)) {
            Some(v) => r matches Some(x) && x@ == v,
            None => r is None,
        },
{
    let mut level = String::new();
    let mut message = String::new();
    let mut timestamp: u64 = 0;
    let mut pos = start;
    let ghost mut done: Seq<WireField> = Seq::empty();
    assert(done + Seq::<WireField>::empty() =~= done);
    while pos < end
        invariant
            start <= pos <= end <= b@.len(),
            parse_fields(b@.subrange(start as int, end as int)) == prepend_fields(done, parse_fields(b@.subrange(pos as int, end as int))),
            fold_fields(done, empty_record(), record_step()) == Some(RecordView { level: level@, message: message@, timestamp }),
        decreases end - pos,
    {
        let (f, q) = match next_field(b, pos, end) {
            Some(x) => x,
            None => return None,
        };
        let ghost wf = field_of(f, b@);
        proof {
            lemma_parse_step(b@, start as int, pos as int, end as int, done, wf, (q - pos) as nat);
            lemma_fold_push(done, wf, empty_record(), record_step());
        }
        if f.number == 1 || f.number == 2 {
            match field_string(b, &f, pos, end) {
                Some(t) => {
                    if f.number == 1 {
                        level = t;
                    } else {
                        message = t;
                    }
                },
                None => {
                    proof { lemma_fold_fail(b@, start as int, q as int, end as int, done.push(wf), empty_record(), record_step()); }
                    return None;
                },
            }
        } else if f.number == 3 {
            match f.value {
                FieldValue::Varint(v) => {
                    timestamp = v;
                },
                _ => {
                    proof { lemma_fold_fail(b@, start as int, q as int, end as int, done.push(wf), empty_record(), record_step()); }
                    return None;
                },
            }
        }
        proof {
            done = done.push(wf);
        }
        pos = q;
    }
    proof {
        assert(b@.subrange(pos as int, end as int) =~= Seq::<u8>::empty());
        assert(done + Seq::<WireField>::empty() =~= done);
    }
    Some(LogRecord { log_level: level, log_message: message, log_timestamp: timestamp })
}

pub open spec fn log_section_apply(acc: Seq<RecordView>, f: WireField) -> Option<Seq<RecordView>> {
    if f.number == 1 {
        match f.value {
            WireValue::Bytes(b) => match decode_record(b) {
                Some(r) => Some(acc.push(r)),
                None => None,
            },
            _ => None,
        }
    } else {
        Some(acc)
    }
}

pub open spec fn log_section_step() -> spec_fn(Seq<RecordView>, WireField) -> Option<Seq<RecordView>> {
    |a: Seq<RecordView>, f: WireField| log_section_apply(a, f)
}

/// The log records that a log section encodes, in order.
pub open spec fn decode_log_section(b: Seq<u8>) -> Option<Seq<RecordView>> {
    match parse_fields(b) {
        Some(fs) => fold_fields(fs, Seq::empty(), log_section_step()),
        None => None,
    }
}

/// Appends the records of a log section to `acc`; `false` when the section
/// is malformed.
fn read_log_section(b: &[u8], start: usize, end: usize, acc: &mut Vec<LogRecord>) -> (ok: bool)
    requires
        start <= end <= b@.len(),
    ensures
        match decode_log_section(b@.subrange(start as int, end as int)) {
            Some(rs) => ok && records_view(final(acc)@) == records_view(old(acc)@) + rs,
            None => !ok,
        },
{
    let mut pos = start;
    let ghost mut done: Seq<WireField> = Seq::empty();
    let ghost base = records_view(acc@);
    assert(done + Seq::<WireField>::empty() =~= done);
    assert(base + Seq::<RecordView>::empty() =~= base);
    while pos < end
        invariant
            start <= pos <= end <= b@.len(),
            parse_fields(b@.subrange(start as int, end as int)) == prepend_fields(done, parse_fields(b@.subrange(pos as int, end as int))),
            fold_fields(done, Seq::empty(), log_section_step()) matches Some(rs) && records_view(acc@) == base + rs,
            base == records_view(old(acc)@),
        decreases end - pos,
    {
        let (f, q) = match next_field(b, pos, end) {
            Some(x) => x,
            None => return false,
        };
        let ghost wf = field_of(f, b@);
        proof {
            lemma_parse_step(b@, start as int, pos as int, end as int, done, wf, (q - pos) as nat);
            lemma_fold_push(done, wf, Seq::<RecordView>::empty(), log_section_step());
        }
        if f.number == 1 {
            let rec = match f.value {
                FieldValue::Bytes(s, e) => read_record(b, s, e),
                _ => None,
            };
            match rec {
                Some(x) => {
                    let ghost before = acc@;
                    acc.push(x);
                    proof {
                        assert(records_view(acc@) =~= records_view(before).push(x@));
                        let rs = fold_fields(done, Seq::empty(), log_section_step())->Some_0;
                        assert(base + rs.push(x@) =~= (base + rs).push(x@));
                    }
                },
                None => {
                    proof { lemma_fold_fail(b@, start as int, q as int, end as int, done.push(wf), Seq::<RecordView>::empty(), log_section_step()); }
                    return false;
                },
            }
        }
        proof {
            done = done.push(wf);
        }
        pos = q;
    }
    proof {
        assert(b@.subrange(pos as int, end as int) =~= Seq::<u8>::empty());
        assert(done + Seq::<WireField>::empty() =~= done);
    }
    true
}

pub open spec fn status_apply(acc: Status, f: WireField) -> Option<Status> {
    if f.number == 1 {
        match f.value {
            WireValue::Varint(v) => if v == 0 { Some(Status::Good) } else { Some(Status::Error) },
            _ => None,
        }
    } else {
        Some(acc)
    }
}

pub open spec fn status_step() -> spec_fn(Status, WireField) -> Option<Status> {
    |a: Status, f: WireField| status_apply(a, f)
}

pub open spec fn sensors_apply(acc: Seq<SnapshotView>, f: WireField) -> Option<Seq<SnapshotView>> {
    if f.number == 2 {
        match f.value {
            WireValue::Bytes(b) => match decode_sensor_section(b) {
                Some(ss) => Some(acc + ss),
                None => None,
            },
            _ => None,
        }
    } else {
        Some(acc)
    }
}

pub open spec fn sensors_step() -> spec_fn(Seq<SnapshotView>, WireField) -> Option<Seq<SnapshotView>> {
    |a: Seq<SnapshotView>, f: WireField| sensors_apply(a, f)
}

pub open spec fn logs_apply(acc: Seq<RecordView>, f: WireField) -> Option<Seq<RecordView>> {
    if f.number == 3 {
        match f.value {
            WireValue::Bytes(b) => match decode_log_section(b) {
                Some(rs) => Some(acc + rs),
                None => None,
            },
            _ => None,
        }
    } else {
        Some(acc)
    }
}

pub open spec fn logs_step() -> spec_fn(Seq<RecordView>, WireField) -> Option<Seq<RecordView>> {
    |a: Seq<RecordView>, f: WireField| logs_apply(a, f)
}

/// The message that `b` encodes. The status is read first (absent: good);
/// under an error status the sensor sections are not read and the message
/// carries no snapshot; the log sections are read in either case.
pub open spec fn decode_message_bytes(b: Seq<u8>) -> Option<MessageView> {
    match parse_fields(b) {
        Some(fs) => match (fold_fields(fs, Status::Good, status_step()), fold_fields(fs, Seq::empty(), logs_step())) {
            (Some(st), Some(rs)) => if st == Status::Good {
                match fold_fields(fs, Seq::empty(), sensors_step()) {
                    Some(ss) => Some(MessageView { status: st, snapshots: ss, diagnostics: rs }),
                    None => None,
                }
            } else {
                Some(MessageView { status: st, snapshots: Seq::empty(), diagnostics: rs })
            },
            _ => None,
        },
        None => None,
    }
}

/// Why a payload could not be decoded.
#[derive(PartialEq, Eq, Structural, Clone, Copy, Debug)]
pub enum WireError {
    Malformed,
}

fn read_status(b: &[u8]) -> (r: Option<Status>)
    ensures
        match parse_fields(b@) {
            Some(fs) => r == fold_fields(fs, Status::Good, status_step()),
            None => r is None,
        },
{
    let end = b.len();
    let mut st = Status::Good;
    let mut pos: usize = 0;
    let ghost mut done: Seq<WireField> = Seq::empty();
    assert(b@.subrange(0, end as int) =~= b@);
    assert(done + Seq::<WireField>::empty() =~= done);
    while pos < end
        invariant
            0 <= pos <= end == b@.len(),
            b@.subrange(0, end as int) == b@,
            parse_fields(b@.subrange(0, end as int)) == prepend_fields(done, parse_fields(b@.subrange(pos as int, end as int))),
            fold_fields(done, Status::Good, status_step()) == Some(st),
        decreases end - pos,
    {
        let (f, q) = match next_field(b, pos, end) {
            Some(x) => x,
            None => return None,
        };
        let ghost wf = field_of(f, b@);
        proof {
            lemma_parse_step(b@, 0, pos as int, end as int, done, wf, (q - pos) as nat);
            lemma_fold_push(done, wf, Status::Good, status_step());
        }
        if f.number == 1 {
            match f.value {
                FieldValue::Varint(v) => {
                    st = if v == 0 { Status::Good } else { Status::Error };
                },
                _ => {
                    proof { lemma_fold_fail(b@, 0, q as int, end as int, done.push(wf), Status::Good, status_step()); }
                    return None;
                },
            }
        }
        proof {
            done = done.push(wf);
        }
        pos = q;
    }
    proof {
        assert(b@.subrange(pos as int, end as int) =~= Seq::<u8>::empty());
        assert(done + Seq::<WireField>::empty() =~= done);
    }
    Some(st)
}

fn read_sensors(b: &[u8]) -> (r: Option<Vec<SensorData>>)
    ensures
        match parse_fields(b@) {
            Some(fs) => match fold_fields(fs, Seq::empty(), sensors_step()) {
                Some(ss) => r matches Some(v) && snapshots_view(v@) == ss && all_wf(v@),
                None => r is None,
            },
            None => r is None,
        },
{
    let end = b.len();
    let mut acc: Vec<SensorData> = Vec::new();
    let mut pos: usize = 0;
    let ghost mut done: Seq<WireField> = Seq::empty();
    assert(b@.subrange(0, end as int) =~= b@);
    assert(done + Seq::<WireField>::empty() =~= done);
    assert(snapshots_view(acc@) =~= Seq::<SnapshotView>::empty());
    while pos < end
        invariant
            0 <= pos <= end == b@.len(),
            b@.subrange(0, end as int) == b@,
            parse_fields(b@.subrange(0, end as int)) == prepend_fields(done, parse_fields(b@.subrange(pos as int, end as int))),
            fold_fields(done, Seq::empty(), sensors_step()) == Some(snapshots_view(acc@)),
            all_wf(acc@),
        decreases end - pos,
    {
        let (f, q) = match next_field(b, pos, end) {
            Some(x) => x,
            None => return None,
        };
        let ghost wf = field_of(f, b@);
        proof {
            lemma_parse_step(b@, 0, pos as int, end as int, done, wf, (q - pos) as nat);
            lemma_fold_push(done, wf, Seq::<SnapshotView>::empty(), sensors_step());
        }
        if f.number == 2 {
            let ok = match f.value {
                FieldValue::Bytes(s, e) => read_sensor_section(b, s, e, &mut acc),
                _ => false,
            };
            if !ok {
                proof { lemma_fold_fail(b@, 0, q as int, end as int, done.push(wf), Seq::<SnapshotView>::empty(), sensors_step()); }
                return None;
            }
        }
        proof {
            done = done.push(wf);
        }
        pos = q;
    }
    proof {
        assert(b@.subrange(pos as int, end as int) =~= Seq::<u8>::empty());
        assert(done + Seq::<WireField>::empty() =~= done);
    }
    Some(acc)
}

fn read_logs(b: &[u8]) -> (r: Option<Vec<LogRecord>>)
    ensures
        match parse_fields(b@) {
            Some(fs) => match fold_fields(fs, Seq::empty(), logs_step()) {
                Some(rs) => r matches Some(v) && records_view(v@) == rs,
                None => r is None,
            },
            None => r is None,
        },
{
    let end = b.len();
    let mut acc: Vec<LogRecord> = Vec::new();
    let mut pos: usize = 0;
    let ghost mut done: Seq<WireField> = Seq::empty();
    assert(b@.subrange(0, end as int) =~= b@);
    assert(done + Seq::<WireField>::empty() =~= done);
    assert(records_view(acc@) =~= Seq::<RecordView>::empty());
    while pos < end
        invariant
            0 <= pos <= end == b@.len(),
            b@.subrange(0, end as int) == b@,
            parse_fields(b@.subrange(0, end as int)) == prepend_fields(done, parse_fields(b@.subrange(pos as int, end as int))),
            fold_fields(done, Seq::empty(), logs_step()) == Some(records_view(acc@)),
        decreases end - pos,
    {
        let (f, q) = match next_field(b, pos, end) {
            Some(x) => x,
            None => return None,
        };
        let ghost wf = field_of(f, b@);
        proof {
            lemma_parse_step(b@, 0, pos as int, end as int, done, wf, (q - pos) as nat);
            lemma_fold_push(done, wf, Seq::<RecordView>::empty(), logs_step());
        }
        if f.number == 3 {
            let ok = match f.value {
                FieldValue::Bytes(s, e) => read_log_section(b, s, e, &mut acc),
                _ => false,
            };
            if !ok {
                proof { lemma_fold_fail(b@, 0, q as int, end as int, done.push(wf), Seq::<RecordView>::empty(), logs_step()); }
                return None;
            }
        }
        proof {
            done = done.push(wf);
        }
        pos = q;
    }
    proof {
        assert(b@.subrange(pos as int, end as int) =~= Seq::<u8>::empty());
        assert(done + Seq::<WireField>::empty() =~= done);
    }
    Some(acc)
}

/// Decodes a telemetry payload. Under an error status the snapshots are not
/// read and the message carries none; the diagnostics are read in either
/// case. Absent sections decode as empty.
pub fn decode_message(b: &[u8]) -> (r: Result<TelemetryMessage, WireError>)
    ensures
        match decode_message_bytes(b@) {
            Some(m) => r matches Ok(x) && x@ == m && all_wf(x.snapshots@),
            None => r == Err::<TelemetryMessage, WireError>(WireError::Malformed),
        },
{
    let status = match read_status(b) {
        Some(s) => s,
        None => return Err(WireError::Malformed),
    };
    let diagnostics = match read_logs(b) {
        Some(d) => d,
        None => return Err(WireError::Malformed),
    };
    match status {
        Status::Good => match read_sensors(b) {
            Some(snapshots) => Ok(TelemetryMessage { status, snapshots, diagnostics }),
            None => Err(WireError::Malformed),
        },
        Status::Error => {
            let snapshots: Vec<SensorData> = Vec::new();
            proof {
                assert(snapshots_view(snapshots@) =~= Seq::<SnapshotView>::empty());
            }
            Ok(TelemetryMessage { status, snapshots, diagnostics })
        },
    }
}

// ---------------------------------------------------------------------------
// Round trip

proof fn lemma_str_of(s: Seq<char>)
    ensures
        str_of(encode_utf8(s)) == Some(s),
{
    encode_utf8_valid_utf8(s);
    encode_utf8_decode_utf8(s);
}

/// Numbers and varints of the fields are within what the writer accepts.
pub open spec fn fields_shaped(fs: Seq<WireField>) -> bool {
    forall|i: int| 0 <= i < fs.len() ==> {
        &&& 1 <= (#[trigger] fs[i]).number <= FIELD_NUMBER_MAX
        &&& (fs[i].value matches WireValue::Varint(v) ==> v <= u64::MAX)
    }
}

proof fn lemma_field_le(fs: Seq<WireField>, i: int)
    requires
        0 <= i < fs.len(),
    ensures
        field_bytes(fs[i]).len() <= fields_bytes(fs).len(),
        fs[i].value matches WireValue::Bytes(b) ==> b.len() <= fields_bytes(fs).len(),
{
    let g = |f: WireField| field_bytes(f);
    let m = fs.map_values(g);
    m.lemma_flatten_and_flatten_alt_are_equivalent();
    m.lemma_flatten_length_ge_single_element_length(i);
}

proof fn lemma_fields_ok(fs: Seq<WireField>)
    requires
        fields_bytes(fs).len() <= u64::MAX,
        fields_shaped(fs),
    ensures
        forall|i: int| 0 <= i < fs.len() ==> field_ok(#[trigger] fs[i]),
        parse_fields(fields_bytes(fs)) == Some(fs),
{
    assert forall|i: int| 0 <= i < fs.len() implies field_ok(#[trigger] fs[i]) by {
        lemma_field_le(fs, i);
    }
    lemma_parse_fields_of(fs);
}

proof fn lemma_fold3<A>(fs: Seq<WireField>, init: A, apply: spec_fn(A, WireField) -> Option<A>)
    requires
        fs.len() == 3,
    ensures
        fold_fields(fs, init, apply) == match apply(init, fs[0]) {
            Some(a) => match apply(a, fs[1]) {
                Some(b) => apply(b, fs[2]),
                None => None,
            },
            None => None,
        },
{
    let e = Seq::<WireField>::empty();
    assert(e.push(fs[0]).push(fs[1]).push(fs[2]) =~= fs);
    assert(fold_fields(e, init, apply) == Some(init));
    lemma_fold_push(e, fs[0], init, apply);
    lemma_fold_push(e.push(fs[0]), fs[1], init, apply);
    lemma_fold_push(e.push(fs[0]).push(fs[1]), fs[2], init, apply);
}

proof fn lemma_reading_round_trip(r: ReadingView)
    requires
        fields_bytes(reading_fields(r)).len() <= u64::MAX,
    ensures
        decode_reading(fields_bytes(reading_fields(r))) == Some(r),
{
    let fs = reading_fields(r);
    lemma_fields_ok(fs);
    lemma_str_of(r.name);
    lemma_str_of(r.unit);
    lemma_fold3(fs, empty_reading(), reading_step());
}

proof fn lemma_record_round_trip(r: RecordView)
    requires
        fields_bytes(record_fields(r)).len() <= u64::MAX,
    ensures
        decode_record(fields_bytes(record_fields(r))) == Some(r),
{
    let fs = record_fields(r);
    lemma_fields_ok(fs);
    lemma_str_of(r.level);
    lemma_str_of(r.message);
    lemma_fold3(fs, empty_record(), record_step());
}

proof fn lemma_fold_types(ts: Seq<Seq<char>>, acc: SnapshotView)
    ensures
        fold_fields(ts.map_values(|t: Seq<char>| str_field(2, t)), acc, snapshot_step())
            == Some(SnapshotView { types: acc.types + ts, ..acc }),
    decreases ts.len(),
{
    let fs = ts.map_values(|t: Seq<char>| str_field(2, t));
    if ts.len() == 0 {
        assert(acc.types + ts =~= acc.types);
    } else {
        lemma_fold_types(ts.drop_last(), acc);
        assert(fs.drop_last() =~= ts.drop_last().map_values(|t: Seq<char>| str_field(2, t)));
        lemma_str_of(ts.last());
        assert(acc.types + ts.drop_last() + seq![ts.last()] =~= acc.types + ts);
        assert((acc.types + ts.drop_last()).push(ts.last()) =~= acc.types + ts);
    }
}

proof fn lemma_fold_readings(rs: Seq<ReadingView>, acc: SnapshotView)
    requires
        names_unique(rs),
        acc.readings == Seq::<ReadingView>::empty(),
        forall|i: int| 0 <= i < rs.len() ==> fields_bytes(reading_fields(#[trigger] rs[i])).len() <= u64::MAX,
    ensures
        fold_fields(rs.map_values(|r: ReadingView| msg_field(4, reading_fields(r))), acc, snapshot_step())
            == Some(SnapshotView { readings: rs, ..acc }),
    decreases rs.len(),
{
    let fs = rs.map_values(|r: ReadingView| msg_field(4, reading_fields(r)));
    if rs.len() == 0 {
        assert(rs =~= acc.readings);
    } else {
        let front = rs.drop_last();
        assert(names_unique(front));
        lemma_fold_readings(front, acc);
        assert(fs.drop_last() =~= front.map_values(|r: ReadingView| msg_field(4, reading_fields(r))));
        let last = rs.last();
        lemma_reading_round_trip(last);
        assert(!has_reading(front, last.name)) by {
            assert forall|k: int| 0 <= k < front.len() implies front[k].name != last.name by {
                assert(front[k] == rs[k]);
                assert(rs[rs.len() - 1] == last);
            }
        }
        assert(front.push(ReadingView { name: last.name, value: last.value, unit: last.unit }) =~= rs);
    }
}

proof fn lemma_snapshot_round_trip(s: SnapshotView)
    requires
        names_unique(s.readings),
        fields_bytes(snapshot_fields(s)).len() <= u64::MAX,
    ensures
        decode_snapshot(fields_bytes(snapshot_fields(s))) == Some(s),
{
    let fs = snapshot_fields(s);
    let tf = s.types.map_values(|t: Seq<char>| str_field(2, t));
    let rf = s.readings.map_values(|r: ReadingView| msg_field(4, reading_fields(r)));
    let a = seq![str_field(1, s.name)];
    let c = seq![str_field(3, s.location)];
    assert(fields_shaped(fs)) by {
        assert forall|i: int| 0 <= i < fs.len() implies 1 <= (#[trigger] fs[i]).number <= FIELD_NUMBER_MAX
            && (fs[i].value matches WireValue::Varint(v) ==> v <= u64::MAX) by {
            if i == 0 {
            } else if i < 1 + tf.len() {
                assert(fs[i] == tf[i - 1]);
            } else if i == 1 + tf.len() {
                assert(fs[i] == c[0]);
            } else {
                assert(fs[i] == rf[i - 2 - tf.len()]);
            }
        }
    }
    lemma_fields_ok(fs);
    assert forall|i: int| 0 <= i < s.readings.len() implies fields_bytes(reading_fields(#[trigger] s.readings[i])).len() <= u64::MAX by {
        let k = 2 + tf.len() + i;
        assert(fs[k] == rf[i]);
        lemma_field_le(fs, k);
    }
    lemma_str_of(s.name);
    lemma_str_of(s.location);
    assert(fs == a + tf + c + rf);
    lemma_fold_concat(a + tf + c, rf, empty_snapshot(), snapshot_step());
    lemma_fold_concat(a + tf, c, empty_snapshot(), snapshot_step());
    lemma_fold_concat(a, tf, empty_snapshot(), snapshot_step());
    lemma_fold_push(Seq::empty(), a[0], empty_snapshot(), snapshot_step());
    assert(Seq::<WireField>::empty().push(a[0]) =~= a);
    let s1 = SnapshotView { name: s.name, ..empty_snapshot() };
    lemma_fold_types(s.types, s1);
    let s2 = SnapshotView { types: s1.types + s.types, ..s1 };
    assert(s1.types + s.types =~= s.types);
    lemma_fold_push(Seq::empty(), c[0], s2, snapshot_step());
    assert(Seq::<WireField>::empty().push(c[0]) =~= c);
    let s3 = SnapshotView { location: s.location, ..s2 };
    lemma_fold_readings(s.readings, s3);
}

proof fn lemma_fold_snapshots(ss: Seq<SnapshotView>, acc: Seq<SnapshotView>)
    requires
        forall|i: int| 0 <= i < ss.len() ==> names_unique((#[trigger] ss[i]).readings)
            && fields_bytes(snapshot_fields(ss[i])).len() <= u64::MAX,
    ensures
        fold_fields(sensor_section_fields(ss), acc, sensor_section_step()) == Some(acc + ss),
    decreases ss.len(),
{
    if ss.len() == 0 {
        assert(acc + ss =~= acc);
    } else {
        lemma_fold_snapshots(ss.drop_last(), acc);
        assert(sensor_section_fields(ss).drop_last() =~= sensor_section_fields(ss.drop_last()));
        lemma_snapshot_round_trip(ss.last());
        assert((acc + ss.drop_last()).push(ss.last()) =~= acc + ss);
    }
}

proof fn lemma_fold_records(rs: Seq<RecordView>, acc: Seq<RecordView>)
    requires
        forall|i: int| 0 <= i < rs.len() ==> fields_bytes(record_fields(#[trigger] rs[i])).len() <= u64::MAX,
    ensures
        fold_fields(log_section_fields(rs), acc, log_section_step()) == Some(acc + rs),
    decreases rs.len(),
{
    if rs.len() == 0 {
        assert(acc + rs =~= acc);
    } else {
        lemma_fold_records(rs.drop_last(), acc);
        assert(log_section_fields(rs).drop_last() =~= log_section_fields(rs.drop_last()));
        lemma_record_round_trip(rs.last());
        assert((acc + rs.drop_last()).push(rs.last()) =~= acc + rs);
    }
}

proof fn lemma_sensor_section_round_trip(ss: Seq<SnapshotView>)
    requires
        forall|i: int| 0 <= i < ss.len() ==> names_unique((#[trigger] ss[i]).readings),
        fields_bytes(sensor_section_fields(ss)).len() <= u64::MAX,
    ensures
        decode_sensor_section(fields_bytes(sensor_section_fields(ss))) == Some(ss),
{
    let fs = sensor_section_fields(ss);
    assert(fields_shaped(fs));
    lemma_fields_ok(fs);
    assert forall|i: int| 0 <= i < ss.len() implies names_unique((#[trigger] ss[i]).readings)
        && fields_bytes(snapshot_fields(ss[i])).len() <= u64::MAX by {
        lemma_field_le(fs, i);
    }
    lemma_fold_snapshots(ss, Seq::empty());
    assert(Seq::<SnapshotView>::empty() + ss =~= ss);
}

proof fn lemma_log_section_round_trip(rs: Seq<RecordView>)
    requires
        fields_bytes(log_section_fields(rs)).len() <= u64::MAX,
    ensures
        decode_log_section(fields_bytes(log_section_fields(rs))) == Some(rs),
{
    let fs = log_section_fields(rs);
    assert(fields_shaped(fs));
    lemma_fields_ok(fs);
    assert forall|i: int| 0 <= i < rs.len() implies fields_bytes(record_fields(#[trigger] rs[i])).len() <= u64::MAX by {
        lemma_field_le(fs, i);
    }
    lemma_fold_records(rs, Seq::empty());
    assert(Seq::<RecordView>::empty() + rs =~= rs);
}

/// The message that decoding hands back for what `m` encodes to: the same
/// status and diagnostics, and the snapshots under a good status only.
pub open spec fn as_received(m: MessageView) -> MessageView {
    if m.status == Status::Good {
        m
    } else {
        MessageView { snapshots: Seq::empty(), ..m }
    }
}

/// Decoding the bytes of an encoded message gives back its status and its
/// diagnostic records, in order and field for field, and, under a good
/// status, its snapshots in order and field for field. Every snapshot's
/// readings carry distinct names, as every snapshot the library builds does.
pub proof fn lemma_round_trip(m: MessageView)
    requires
        forall|i: int| 0 <= i < m.snapshots.len() ==> names_unique((#[trigger] m.snapshots[i]).readings),
        message_bytes(m).len() <= u64::MAX,
    ensures
        decode_message_bytes(message_bytes(m)) == Some(as_received(m)),
{
    let fs = message_fields(m);
    assert(fields_shaped(fs));
    lemma_fields_ok(fs);
    lemma_field_le(fs, 1);
    lemma_field_le(fs, 2);
    lemma_sensor_section_round_trip(m.snapshots);
    lemma_log_section_round_trip(m.diagnostics);
    lemma_fold3(fs, Status::Good, status_step());
    lemma_fold3(fs, Seq::<RecordView>::empty(), logs_step());
    lemma_fold3(fs, Seq::<SnapshotView>::empty(), sensors_step());
    assert(Seq::<RecordView>::empty() + m.diagnostics =~= m.diagnostics);
    assert(Seq::<SnapshotView>::empty() + m.snapshots =~= m.snapshots);
}

} // verus!
