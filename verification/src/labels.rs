//! The texts that the two-peer demo shows.

use crate::demo;
use crate::demo::{Direction, PacketStatus, WireEntry, WireEntryView};
use crate::text;
use vstd::prelude::*;

verus! {

/// The parts of a packed colour: red, green and blue. The lowest byte is the
/// opacity.
pub open spec fn rgb_of(color: u32) -> (u8, u8, u8) {
    ((color / 0x100_0000) as u8, (color / 0x1_0000 % 256) as u8, (color / 0x100 % 256) as u8)
}

/// A colour as a style.
pub open spec fn style_of(color: u32) -> Seq<char> {
    let (r, g, b) = rgb_of(color);
    "rgb("@ + text::decimal(r as nat) + ","@ + text::decimal(g as nat) + ","@ + text::decimal(b as nat) + ")"@
}

/// A number of strokes.
pub open spec fn badge_of(n: nat) -> Seq<char> {
    text::decimal(n) + " stroke"@ + if n == 1 {
        ""@
    } else {
        "s"@
    }
}

/// How many units of that size come closest to `n`: of two that are as close,
/// the even number.
pub open spec fn closest(n: nat, unit: nat) -> nat {
    let q = n / unit;
    let r = n % unit;
    if 2 * r > unit || (2 * r == unit && q % 2 == 1) {
        q + 1
    } else {
        q
    }
}

/// The distance of the floating-point numbers of double precision about `n`.
pub open spec fn grain(n: nat) -> nat
    decreases n,
{
    if n < 0x20_0000_0000_0000 {
        1
    } else {
        2 * grain(n / 2)
    }
}

/// `n` as a floating-point number of double precision.
pub open spec fn as_double(n: nat) -> nat {
    closest(n, grain(n)) * grain(n)
}

/// A number of bytes: from 1024 on in kilobytes with one decimal.
pub open spec fn size_text(n: nat) -> Seq<char> {
    if n < 1024 {
        text::decimal(n) + " B"@
    } else {
        let tenths = closest(as_double(n) * 10, 1024);
        text::decimal(tenths / 10) + "."@ + text::decimal(tenths % 10) + " KB"@
    }
}

/// The class of a packet on its way.
pub open spec fn packet_class_of(d: Direction) -> Seq<char> {
    match d {
        Direction::AliceToBob => "packet from-alice"@,
        Direction::BobToAlice => "packet from-bob"@,
    }
}

/// A delay as the slider shows it.
pub open spec fn delay_of(ms: u32) -> Seq<char> {
    if ms == 0 {
        "0ms (instant)"@
    } else {
        text::decimal(ms as nat) + "ms"@
    }
}

/// A delay as the network shows it.
pub open spec fn network_of(ms: u32) -> Seq<char> {
    if ms == 0 {
        "instant"@
    } else {
        text::decimal(ms as nat) + "ms"@
    }
}

/// The class of a direction.
pub open spec fn direction_class(d: Direction) -> Seq<char> {
    match d {
        Direction::AliceToBob => "ab"@,
        Direction::BobToAlice => "ba"@,
    }
}

/// The label of a direction.
pub open spec fn direction_label(d: Direction) -> Seq<char> {
    match d {
        Direction::AliceToBob => "A-&gt;B"@,
        Direction::BobToAlice => "B-&gt;A"@,
    }
}

/// The class of a status.
pub open spec fn status_class(s: PacketStatus) -> Seq<char> {
    match s {
        PacketStatus::Inflight => "inflight"@,
        PacketStatus::Delivered => "delivered"@,
        PacketStatus::Queued => "queued"@,
    }
}

/// The label of a status.
pub open spec fn status_label(s: PacketStatus) -> Seq<char> {
    match s {
        PacketStatus::Inflight => "in-flight"@,
        PacketStatus::Delivered => "delivered"@,
        PacketStatus::Queued => "queued"@,
    }
}

/// One line of the log.
pub open spec fn line_of(e: WireEntryView) -> Seq<char> {
    "<div class=\"log-entry\"><span class=\"log-dir "@ + direction_class(e.direction) + "\">"@ + direction_label(
        e.direction,
    ) + "</span><span class=\"log-hex\">"@ + e.hex + " ...</span><span class=\"log-bytes\">"@ + text::decimal(
        e.bytes as nat,
    ) + "B</span><span class=\"log-tag "@ + status_class(e.status) + "\">"@ + status_label(e.status)
        + "</span></div>"@
}

/// The lines of the log, one after another.
pub open spec fn lines_of(log: Seq<WireEntryView>) -> Seq<char>
    decreases log.len(),
{
    if log.len() == 0 {
        seq![]
    } else {
        lines_of(log.drop_last()) + line_of(log.last())
    }
}

/// The parts of a packed colour.
pub fn u32_rgb(color: u32) -> (parts: (u8, u8, u8))
    ensures
        parts == rgb_of(color),
{
    ((color / 0x100_0000) as u8, (color / 0x1_0000 % 256) as u8, (color / 0x100 % 256) as u8)
}

/// A colour as a style.
pub fn rgb_style(color: u32) -> (style: String)
    ensures
        style@ == style_of(color),
{
    let (r, g, b): (u8, u8, u8) = u32_rgb(color);
    let mut style = String::new();
    style.append("rgb(");
    text::push_decimal(&mut style, r as u64);
    style.append(",");
    text::push_decimal(&mut style, g as u64);
    style.append(",");
    text::push_decimal(&mut style, b as u64);
    style.append(")");
    proof {
        assert(style@ =~= style_of(color));
    }
    style
}

/// A number of strokes.
pub fn stroke_badge(n: usize) -> (label: String)
    ensures
        label@ == badge_of(n as nat),
{
    let mut label = text::decimal_text(n as u64);
    label.append(" stroke");
    label.append(if n == 1 { "" } else { "s" });
    label
}

fn grain_of(n: u64) -> (unit: u64)
    ensures
        unit == grain(n as nat),
        1 <= unit,
        unit * 0x10_0000_0000_0000 <= n || unit == 1,
    decreases n,
{
    if n < 0x20_0000_0000_0000 {
        1
    } else {
        2 * grain_of(n / 2)
    }
}

fn closest_to(n: u128, unit: u128) -> (count: u128)
    requires
        1 <= unit <= 0x1000,
        n <= 0x1_0000_0000_0000_0000_0000,
    ensures
        count == closest(n as nat, unit as nat),
        count * unit <= n + unit,
{
    let q: u128 = n / unit;
    let r: u128 = n % unit;
    proof {
        vstd::arithmetic::div_mod::lemma_fundamental_div_mod(n as int, unit as int);
        assert(q <= n) by (nonlinear_arith)
            requires
                n == unit * q + r,
                unit >= 1,
                r >= 0,
        ;
        assert(q * unit == unit * q) by (nonlinear_arith);
        assert((q + 1) * unit == unit * q + unit) by (nonlinear_arith);
    }
    if 2 * r > unit || (2 * r == unit && q % 2 == 1) {
        q + 1
    } else {
        q
    }
}

/// A number of bytes for display.
pub fn fmt_bytes(n: usize) -> (label: String)
    ensures
        label@ == size_text(n as nat),
{
    let mut label = String::new();
    if n < 1024 {
        text::push_decimal(&mut label, n as u64);
        label.append(" B");
        proof {
            assert(label@ =~= size_text(n as nat));
        }
        return label;
    }
    let unit: u64 = grain_of(n as u64);
    let count: u128 = closest_to(n as u128, unit as u128);
    let value: u128 = count * unit as u128;
    proof {
        assert(value == as_double(n as nat));
    }
    let tenths: u128 = closest_to(value * 10, 1024);
    text::push_decimal(&mut label, (tenths / 10) as u64);
    label.append(".");
    text::push_decimal(&mut label, (tenths % 10) as u64);
    label.append(" KB");
    proof {
        assert(label@ =~= size_text(n as nat));
    }
    label
}

/// The class of a packet on its way.
pub fn packet_class(direction: Direction) -> (class: &'static str)
    ensures
        class@ == packet_class_of(direction),
{
    match direction {
        Direction::AliceToBob => "packet from-alice",
        Direction::BobToAlice => "packet from-bob",
    }
}

/// How the controls show the state of the network.
pub struct NetworkControls {
    pub button: &'static str,
    pub button_class: &'static str,
    pub sync_disabled: bool,
    pub dot_class: &'static str,
    pub status: &'static str,
}

/// The controls for a network that is cut or not. What waits can be handed over
/// only while it is cut.
pub fn network_controls(disconnected: bool) -> (controls: NetworkControls)
    ensures
        controls.button@ == (if disconnected { "Reconnect"@ } else { "Disconnect"@ }),
        controls.button_class@ == (if disconnected { "btn active"@ } else { "btn"@ }),
        controls.sync_disabled == !disconnected,
        controls.dot_class@ == (if disconnected { "status-dot off"@ } else { "status-dot"@ }),
        controls.status@ == (if disconnected { "disconnected"@ } else { "connected"@ }),
{
    if disconnected {
        NetworkControls {
            button: "Reconnect",
            button_class: "btn active",
            sync_disabled: false,
            dot_class: "status-dot off",
            status: "disconnected",
        }
    } else {
        NetworkControls {
            button: "Disconnect",
            button_class: "btn",
            sync_disabled: true,
            dot_class: "status-dot",
            status: "connected",
        }
    }
}

/// A delay as the slider shows it.
pub fn delay_label(ms: u32) -> (label: String)
    ensures
        label@ == delay_of(ms),
{
    if ms == 0 {
        return "0ms (instant)".to_string();
    }
    let mut label = text::decimal_text(ms as u64);
    label.append("ms");
    label
}

/// A delay as the network shows it.
pub fn network_label(ms: u32) -> (label: String)
    ensures
        label@ == network_of(ms),
{
    if ms == 0 {
        return "instant".to_string();
    }
    let mut label = text::decimal_text(ms as u64);
    label.append("ms");
    label
}

fn push_line(out: &mut String, e: &WireEntry)
    ensures
        final(out)@ == old(out)@ + line_of(e@),
{
    out.append("<div class=\"log-entry\"><span class=\"log-dir ");
    out.append(
        match e.direction {
            Direction::AliceToBob => "ab",
            Direction::BobToAlice => "ba",
        },
    );
    out.append("\">");
    out.append(
        match e.direction {
            Direction::AliceToBob => "A-&gt;B",
            Direction::BobToAlice => "B-&gt;A",
        },
    );
    out.append("</span><span class=\"log-hex\">");
    out.append(e.hex.as_str());
    out.append(" ...</span><span class=\"log-bytes\">");
    text::push_decimal(out, e.bytes as u64);
    out.append("B</span><span class=\"log-tag ");
    out.append(
        match e.status {
            PacketStatus::Inflight => "inflight",
            PacketStatus::Delivered => "delivered",
            PacketStatus::Queued => "queued",
        },
    );
    out.append("\">");
    out.append(
        match e.status {
            PacketStatus::Inflight => "in-flight",
            PacketStatus::Delivered => "delivered",
            PacketStatus::Queued => "queued",
        },
    );
    out.append("</span></div>");
    proof {
        assert(out@ =~= old(out)@ + line_of(e@));
    }
}

/// The log as it is shown.
pub fn log_html(log: &[WireEntry]) -> (html: String)
    ensures
        html@ == lines_of(demo::entry_views(log@)),
{
    let ghost all = demo::entry_views(log@);
    let mut html = String::new();
    let mut i: usize = 0;
    proof {
        assert(all.take(0) =~= seq![]);
        assert(html@ =~= lines_of(all.take(0)));
    }
    while i < log.len()
        invariant
            i <= log@.len(),
            all == demo::entry_views(log@),
            html@ == lines_of(all.take(i as int)),
        decreases log@.len() - i,
    {
        proof {
            assert(all.take(i + 1).drop_last() =~= all.take(i as int));
            assert(all.take(i + 1).last() == log@[i as int]@);
        }
        push_line(&mut html, &log[i]);
        i += 1;
    }
    proof {
        assert(all.take(i as int) =~= all);
    }
    html
}

/// A colour has its red in the highest byte, then its green, its blue, and its
/// opacity in the lowest, which is not shown.
pub proof fn law_colours_are_taken_apart(color: u32)
    ensures
        ({
            let (r, g, b) = rgb_of(color);
            color == r * 0x100_0000 + g * 0x1_0000 + b * 0x100 + color % 0x100
        }),
{
}

/// Rounding gives the nearest multiple of the unit, and of two that are as near
/// the even one.
pub proof fn law_rounding_is_to_the_nearest(n: nat, unit: nat)
    requires
        unit > 0,
    ensures
        2 * (closest(n, unit) * unit - n) <= unit,
        2 * (n - closest(n, unit) * unit) <= unit,
        2 * (closest(n, unit) * unit - n) == unit || 2 * (n - closest(n, unit) * unit) == unit ==> closest(n, unit) % 2
            == 0,
{
    let q = (n / unit) as int;
    let r = (n % unit) as int;
    vstd::arithmetic::div_mod::lemma_fundamental_div_mod(n as int, unit as int);
    vstd::arithmetic::div_mod::lemma_mod_bound(n as int, unit as int);
    assert(unit * q == q * unit) by (nonlinear_arith);
    assert((q + 1) * unit == q * unit + unit) by (nonlinear_arith);
}

/// A length below a kilobyte is shown as it is. One above is shown in kilobytes
/// and tenths, rounded to the nearest.
pub proof fn law_lengths_are_shown_to_a_tenth(n: nat)
    requires
        n < 0x20_0000_0000_0000,
    ensures
        n < 1024 ==> size_text(n) == text::decimal(n) + " B"@,
        n >= 1024 ==> exists|tenths: nat|
            {
                &&& 2 * (tenths * 1024 - 10 * n) <= 1024
                &&& 2 * (10 * n - tenths * 1024) <= 1024
                &&& #[trigger] text::decimal(tenths / 10) + "."@ + text::decimal(tenths % 10) + " KB"@ == size_text(n)
            },
{
    if n >= 1024 {
        assert(grain(n) == 1);
        assert(closest(n, 1) == n);
        assert(n * 1 == n) by (nonlinear_arith);
        assert(as_double(n) == n);
        let tenths = closest(n * 10, 1024);
        law_rounding_is_to_the_nearest(n * 10, 1024);
        assert(text::decimal(tenths / 10) + "."@ + text::decimal(tenths % 10) + " KB"@ == size_text(n));
    }
}

/// A double-precision number has 53 bits: lengths that need no more are held as
/// they are, others to the nearest multiple of the least power of two that
/// leaves no more than that.
pub proof fn law_large_lengths_are_rounded_first(n: nat)
    ensures
        n < 0x20_0000_0000_0000 ==> grain(n) == 1,
        n >= 0x20_0000_0000_0000 ==> grain(n) == 2 * grain(n / 2),
        0x10_0000_0000_0000 <= n / grain(n) || grain(n) == 1,
        n / grain(n) < 0x20_0000_0000_0000,
        2 * (as_double(n) - n) <= grain(n),
        2 * (n - as_double(n)) <= grain(n),
    decreases n,
{
    if n >= 0x20_0000_0000_0000 {
        law_large_lengths_are_rounded_first(n / 2);
        lemma_grain_positive(n / 2);
        vstd::arithmetic::div_mod::lemma_div_denominator(n as int, 2, grain(n / 2) as int);
    }
    lemma_grain_positive(n);
    law_rounding_is_to_the_nearest(n, grain(n));
}

proof fn lemma_grain_positive(n: nat)
    ensures
        grain(n) >= 1,
    decreases n,
{
    if n >= 0x20_0000_0000_0000 {
        lemma_grain_positive(n / 2);
    }
}

/// One stroke is a stroke, and any other number of them are strokes.
pub proof fn law_one_stroke_is_singular(n: nat)
    ensures
        n == 1 ==> badge_of(n) == text::decimal(1) + " stroke"@,
        n != 1 ==> badge_of(n) == text::decimal(n) + " strokes"@,
{
    reveal_strlit(" stroke");
    reveal_strlit(" strokes");
    reveal_strlit("s");
    reveal_strlit("");
    assert(" stroke"@ + "s"@ =~= " strokes"@);
    assert(badge_of(n) =~= text::decimal(n) + if n == 1 {
        " stroke"@
    } else {
        " strokes"@
    });
}

/// The log is shown entry by entry, the first on top.
pub proof fn law_log_is_shown_entry_by_entry(a: Seq<WireEntryView>, b: Seq<WireEntryView>, e: WireEntryView)
    ensures
        lines_of(seq![]) == Seq::<char>::empty(),
        lines_of(seq![e]) == line_of(e),
        lines_of(a + b) == lines_of(a) + lines_of(b),
    decreases b.len(),
{
    assert(seq![e].drop_last() =~= Seq::<WireEntryView>::empty());
    assert(lines_of(seq![e].drop_last()) =~= Seq::<char>::empty());
    assert(lines_of(seq![e]) =~= line_of(e));
    if b.len() == 0 {
        assert(a + b =~= a);
        assert(lines_of(a + b) =~= lines_of(a) + lines_of(b));
    } else {
        law_log_is_shown_entry_by_entry(a, b.drop_last(), e);
        assert((a + b).drop_last() =~= a + b.drop_last());
        assert(lines_of(a + b) =~= lines_of(a) + lines_of(b));
    }
}

/// The words that a page is given: which way a packet goes and what has become
/// of it, and how long the network takes.
pub proof fn law_words_for_packets_and_delays(ms: u32)
    ensures
        packet_class_of(Direction::AliceToBob) == "packet from-alice"@,
        packet_class_of(Direction::BobToAlice) == "packet from-bob"@,
        direction_class(Direction::AliceToBob) == "ab"@ && direction_label(Direction::AliceToBob) == "A-&gt;B"@,
        direction_class(Direction::BobToAlice) == "ba"@ && direction_label(Direction::BobToAlice) == "B-&gt;A"@,
        status_class(PacketStatus::Inflight) == "inflight"@ && status_label(PacketStatus::Inflight) == "in-flight"@,
        status_class(PacketStatus::Delivered) == "delivered"@ && status_label(PacketStatus::Delivered) == "delivered"@,
        status_class(PacketStatus::Queued) == "queued"@ && status_label(PacketStatus::Queued) == "queued"@,
        ms == 0 ==> delay_of(ms) == "0ms (instant)"@ && network_of(ms) == "instant"@,
        ms > 0 ==> delay_of(ms) == text::decimal(ms as nat) + "ms"@ && network_of(ms) == text::decimal(ms as nat)
            + "ms"@,
{
}

} // verus!
