//! Human-readable rendering of a snapshot batch for the poll interface.
use vstd::prelude::*;
use crate::sensors::{SensorData, SnapshotView, ReadingView, snapshots_view, readings_view};
use crate::channel::TelemetryChannel;

verus! {

pub open spec fn shl(m: nat, k: nat) -> nat
    decreases k,
{
    if k == 0 { m } else { shl(m * 2, (k - 1) as nat) }
}

pub open spec fn shr(m: nat, k: nat) -> nat
    decreases k,
{
    if k == 0 { m } else { shr(m / 2, (k - 1) as nat) }
}

pub open spec fn clamp_i32(v: int) -> int {
    if v > i32::MAX { i32::MAX as int } else if v < i32::MIN { i32::MIN as int } else { v }
}

/// The binary32 number with bits `bits`, truncated toward zero to an `i32`:
/// saturated at the bounds, infinities to the bounds, NaN to zero.
pub open spec fn f32_trunc_i32(bits: u32) -> int {
    let neg = bits >= 0x8000_0000;
    let exp = ((bits / 0x80_0000) % 256) as nat;
    let frac = (bits % 0x80_0000) as nat;
    if exp == 255 {
        if frac != 0 { 0 } else if neg { i32::MIN as int } else { i32::MAX as int }
    } else {
        let mant: nat = if exp == 0 { frac } else { frac + 0x80_0000 };
        let e: nat = if exp == 0 { 1 } else { exp };
        let mag: nat = if e >= 150 { shl(mant, (e - 150) as nat) } else { shr(mant, (150 - e) as nat) };
        clamp_i32(if neg { -mag } else { mag as int })
    }
}

proof fn lemma_shl_ge(m: nat, k: nat)
    ensures
        shl(m, k) >= m,
    decreases k,
{
    if k > 0 {
        lemma_shl_ge(m * 2, (k - 1) as nat);
    }
}

proof fn lemma_shr_zero(k: nat)
    ensures
        shr(0, k) == 0,
    decreases k,
{
    if k > 0 {
        lemma_shr_zero((k - 1) as nat);
    }
}

/// Truncates the binary32 number with bits `bits` to an `i32`, as a cast
/// from `f32` does.
pub fn trunc_to_i32(bits: u32) -> (r: i32)
    ensures
        r == f32_trunc_i32(bits),
{
    let neg = bits >= 0x8000_0000;
    let exp = (bits / 0x80_0000) % 256;
    let frac = bits % 0x80_0000;
    if exp == 255 {
        return if frac != 0 { 0 } else if neg { i32::MIN } else { i32::MAX };
    }
    let mant: u64 = if exp == 0 { frac as u64 } else { frac as u64 + 0x80_0000 };
    let e: u32 = if exp == 0 { 1 } else { exp };
    let mut mag: u64 = mant;
    if e >= 150 {
        let mut k: u32 = e - 150;
        while k > 0 && mag < 0x8000_0000
            invariant
                shl(mag as nat, k as nat) == shl(mant as nat, (e - 150) as nat),
                mag < 0x1_0000_0000,
            decreases k,
        {
            mag = mag * 2;
            k = k - 1;
        }
        proof {
            lemma_shl_ge(mag as nat, k as nat);
        }
    } else {
        let mut k: u32 = 150 - e;
        while k > 0 && mag > 0
            invariant
                shr(mag as nat, k as nat) == shr(mant as nat, (150 - e) as nat),
                mag <= mant,
            decreases k,
        {
            mag = mag / 2;
            k = k - 1;
        }
        proof {
            lemma_shr_zero(k as nat);
        }
    }
    if mag >= 0x8000_0000 {
        if neg { i32::MIN } else { i32::MAX }
    } else {
        let m = mag as i32;
        if neg { -m } else { m }
    }
}

pub open spec fn digit_char(d: nat) -> char {
    seq!['0', '1', '2', '3', '4', '5', '6', '7', '8', '9'][d as int]
}

/// Decimal digits of `n`, most significant first, without leading zeros.
pub open spec fn digits(n: nat) -> Seq<char>
    decreases n,
{
    if n < 10 { seq![digit_char(n)] } else { digits(n / 10).push(digit_char(n % 10)) }
}

/// Decimal text of `v`, with a leading minus sign when negative.
pub open spec fn int_text(v: int) -> Seq<char> {
    if v < 0 { seq!['-'] + digits((-v) as nat) } else { digits(v as nat) }
}

/// Relies on `i32`'s `Display` (through `ToString`): the decimal form, with
/// a leading `-` for negative values.
#[verifier::external_body]
fn decimal(v: i32) -> (r: String)
    ensures
        r@ == int_text(v as int),
{
    v.to_string()
}

pub open spec fn reading_line(r: ReadingView) -> Seq<char> {
    "<li>"@ + r.name + ": "@ + int_text(f32_trunc_i32(r.value)) + " "@ + r.unit + "</li>\n"@
}

pub open spec fn readings_text(rs: Seq<ReadingView>) -> Seq<char> {
    rs.map_values(|r: ReadingView| reading_line(r)).flatten()
}

pub open spec fn sensor_block(s: SnapshotView) -> Seq<char> {
    "<h2>"@ + s.name + "</h2>\n"@ + "<ul>\n"@ + readings_text(s.readings) + "</ul>\n"@
}

/// The markup of a batch: per sensor a heading and a list with one item
/// `name: value unit` per reading, values truncated to integers.
pub open spec fn batch_markup(ss: Seq<SnapshotView>) -> Seq<char> {
    ss.map_values(|s: SnapshotView| sensor_block(s)).flatten()
}

proof fn lemma_flatten_map_push<A>(xs: Seq<A>, f: spec_fn(A) -> Seq<char>, i: int)
    requires
        0 <= i < xs.len(),
    ensures
        xs.take(i + 1).map_values(f).flatten() == xs.take(i).map_values(f).flatten() + f(xs[i]),
{
    assert(xs.take(i + 1).map_values(f) =~= xs.take(i).map_values(f).push(f(xs[i])));
    xs.take(i).map_values(f).lemma_flatten_push(f(xs[i]));
}

/// Renders a batch as markup.
pub fn render_markup(sensors_data: &Vec<SensorData>) -> (buf: String)
    ensures
        buf@ == batch_markup(snapshots_view(sensors_data@)),
{
    let ghost ss = snapshots_view(sensors_data@);
    let mut buf = String::new();
    let mut i: usize = 0;
    proof {
        assert(ss.take(0).map_values(|s: SnapshotView| sensor_block(s)) =~= Seq::<Seq<char>>::empty());
    }
    while i < sensors_data.len()
        invariant
            0 <= i <= sensors_data.len(),
            ss == snapshots_view(sensors_data@),
            buf@ == ss.take(i as int).map_values(|s: SnapshotView| sensor_block(s)).flatten(),
        decreases sensors_data.len() - i,
    {
        let sensor = &sensors_data[i];
        let ghost start = buf@;
        buf.append("<h2>");
        buf.append(sensor.get_name().as_str());
        buf.append("</h2>\n");
        buf.append("<ul>\n");
        let ghost head = buf@;
        let values = sensor.get_values();
        let ghost rs = readings_view(values@);
        let mut j: usize = 0;
        proof {
            assert(rs.take(0).map_values(|r: ReadingView| reading_line(r)) =~= Seq::<Seq<char>>::empty());
            assert(head + Seq::<char>::empty() =~= head);
        }
        while j < values.len()
            invariant
                0 <= j <= values.len(),
                rs == readings_view(values@),
                buf@ == head + rs.take(j as int).map_values(|r: ReadingView| reading_line(r)).flatten(),
            decreases values.len() - j,
        {
            let v = &values[j];
            let ghost before = buf@;
            buf.append("<li>");
            buf.append(v.value_name.as_str());
            buf.append(": ");
            let text = decimal(trunc_to_i32(v.value));
            buf.append(text.as_str());
            buf.append(" ");
            buf.append(v.unit.as_str());
            buf.append("</li>\n");
            proof {
                assert(rs[j as int] == v@);
                assert(buf@ =~= before + reading_line(v@));
                lemma_flatten_map_push(rs, |r: ReadingView| reading_line(r), j as int);
                assert(buf@ =~= head + rs.take(j + 1).map_values(|r: ReadingView| reading_line(r)).flatten());
            }
            j = j + 1;
        }
        buf.append("</ul>\n");
        proof {
            assert(rs.take(values@.len() as int) =~= rs);
            assert(sensor@.readings == rs);
            assert(ss[i as int] == sensor@);
            assert(buf@ =~= start + sensor_block(sensor@));
            lemma_flatten_map_push(ss, |s: SnapshotView| sensor_block(s), i as int);
        }
        i = i + 1;
    }
    proof {
        assert(ss.take(sensors_data.len() as int) =~= ss);
    }
    buf
}

/// The markup of the latest batch of the channel (see
/// `TelemetryChannel::get_data`).
pub fn get_http_data(channel: &mut TelemetryChannel) -> (buf: String)
    requires
        old(channel).wf(),
    ensures
        final(channel).wf(),
        final(channel)@ == crate::channel::latest_step(old(channel)@).0,
        buf@ == batch_markup(crate::channel::latest_step(old(channel)@).1),
{
    let sensors_data = channel.get_data();
    render_markup(&sensors_data)
}

} // verus!
