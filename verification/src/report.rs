//! The lines that tell of decoded files.

use crate::ncm::audio;
use crate::ncm::container::{Headers, HeadersView};
use crate::ncm::metadata;
use crate::text;
use vstd::prelude::*;

verus! {

// ---------------------------------------------------------------------------
// Sizes
// ---------------------------------------------------------------------------

/// The integer nearest to `n / d`, and of two the even one.
pub open spec fn nearest(n: int, d: int) -> int {
    if 2 * (n % d) > d || 2 * (n % d) == d && (n / d) % 2 == 1 {
        n / d + 1
    } else {
        n / d
    }
}

/// The distance between the numbers of 53 significant bits next to `n`.
pub open spec fn spacing(n: int) -> int
    decreases n,
{
    if n < 0x20_0000_0000_0000 {
        1
    } else {
        2 * spacing(n / 2)
    }
}

/// `n` rounded to 53 significant bits.
pub open spec fn rounded(n: int) -> int {
    nearest(n, spacing(n)) * spacing(n)
}

/// How many bytes the unit holds in which a size is given.
pub open spec fn unit_bytes(bytes: int) -> int {
    if bytes < 0x10_0000 {
        0x400
    } else if bytes < 0x4000_0000 {
        0x10_0000
    } else {
        0x4000_0000
    }
}

/// The name of the unit in which a size is given.
pub open spec fn unit_name(bytes: int) -> Seq<char> {
    if bytes < 0x10_0000 {
        " KiB"@
    } else if bytes < 0x4000_0000 {
        " MiB"@
    } else {
        " GiB"@
    }
}

/// A size in the largest of the units that it fills, up to gibibytes: whole
/// bytes as they are, larger units with two decimal places. Sizes of more than
/// 53 significant bits are rounded to that many first.
pub open spec fn size_text(bytes: int) -> Seq<char> {
    if bytes < 0x400 {
        text::decimal(bytes as nat) + " B"@
    } else {
        let hundredths = nearest(100 * rounded(bytes), unit_bytes(bytes));
        text::decimal((hundredths / 100) as nat) + "."@ + text::decimal(
            (hundredths % 100 / 10) as nat,
        ) + text::decimal((hundredths % 10) as nat) + unit_name(bytes)
    }
}

/// Whether `q` is the nearest to `n / d` of all integers; if two are, the even one.
pub open spec fn is_nearest(q: int, n: int, d: int) -> bool {
    &&& 2 * (n - q * d) <= d
    &&& 2 * (q * d - n) <= d
    &&& 2 * (n - q * d) == d || 2 * (q * d - n) == d ==> q % 2 == 0
}

proof fn lemma_nearest(n: int, d: int)
    requires
        0 <= n,
        0 < d,
    ensures
        is_nearest(nearest(n, d), n, d),
{
    let low = n / d;
    let rest = n % d;
    assert(n == low * d + rest && 0 <= rest < d) by (nonlinear_arith)
        requires
            low == n / d,
            rest == n % d,
            d > 0,
    ;
    assert((low + 1) * d == low * d + d) by (nonlinear_arith);
}

proof fn lemma_spacing(n: int)
    requires
        0 <= n,
    ensures
        1 <= spacing(n),
        n < 0x20_0000_0000_0000 ==> spacing(n) == 1,
        n >= 0x20_0000_0000_0000 ==> 0x10_0000_0000_0000 * spacing(n) <= n && spacing(n) % 2 == 0,
        n < 0x20_0000_0000_0000 * spacing(n),
        exists|k: nat| spacing(n) == #[trigger] vstd::arithmetic::power2::pow2(k),
    decreases n,
{
    if n < 0x20_0000_0000_0000 {
        vstd::arithmetic::power2::lemma2_to64();
        assert(spacing(n) == vstd::arithmetic::power2::pow2(0));
    } else {
        lemma_spacing(n / 2);
        let k = choose|k: nat| spacing(n / 2) == #[trigger] vstd::arithmetic::power2::pow2(k);
        vstd::arithmetic::power2::lemma_pow2_unfold(k + 1);
        assert(spacing(n) == vstd::arithmetic::power2::pow2(k + 1));
    }
}

/// Whether `r` is `q` times the power of two of which `n` has at least 2^52 and
/// less than 2^53, and no other multiple of it is nearer to `n`.
pub open spec fn is_multiple_near(r: int, n: int, k: nat, q: int) -> bool {
    let unit = vstd::arithmetic::power2::pow2(k) as int;
    &&& 0x10_0000_0000_0000 * unit <= n < 0x20_0000_0000_0000 * unit
    &&& r == q * unit
    &&& is_nearest(q, n, unit)
}

/// Rounding to 53 significant bits, as a number with that many bits of precision
/// does it: below 2^53 nothing changes; above, the result is the nearest multiple
/// of that power of two of which the number has at least 2^52 and less than 2^53,
/// and of two the even one.
#[verifier::rlimit(40)]
pub proof fn law_rounding(n: int)
    requires
        0 <= n,
    ensures
        n < 0x20_0000_0000_0000 ==> rounded(n) == n,
        n >= 0x20_0000_0000_0000 ==> exists|k: nat, q: int| #[trigger]
            is_multiple_near(rounded(n), n, k, q),
{
    lemma_spacing(n);
    lemma_nearest(n, spacing(n));
    if n >= 0x20_0000_0000_0000 {
        let k = choose|k: nat| spacing(n) == #[trigger] vstd::arithmetic::power2::pow2(k);
        let q = nearest(n, spacing(n));
        assert(is_multiple_near(rounded(n), n, k, q));
    } else {
        assert(nearest(n, 1) == n);
    }
}

/// Whether a text gives a size in hundredths of a unit.
pub open spec fn gives_hundredths(size: Seq<char>, hundredths: int, unit: Seq<char>) -> bool {
    size == text::decimal((hundredths / 100) as nat) + "."@ + seq![
        text::digit_char(hundredths / 10 % 10),
        text::digit_char(hundredths % 10),
    ] + unit
}

/// What a size looks like. Below 1024 bytes it is the number of bytes; else it is
/// the number of kibibytes, mebibytes or gibibytes, the largest of these that it
/// reaches, with two decimals that are the nearest to the size.
#[verifier::rlimit(40)]
pub proof fn law_size_text(bytes: int)
    requires
        0 <= bytes <= u64::MAX,
    ensures
        bytes < 1024 ==> size_text(bytes) == text::decimal(bytes as nat) + " B"@,
        1024 <= bytes < 1048576 ==> exists|h: int| #[trigger]
            is_nearest(h, 100 * bytes, 1024) && gives_hundredths(size_text(bytes), h, " KiB"@),
        1048576 <= bytes < 1073741824 ==> exists|h: int| #[trigger]
            is_nearest(h, 100 * bytes, 1048576) && gives_hundredths(size_text(bytes), h, " MiB"@),
        1073741824 <= bytes ==> exists|h: int| #[trigger]
            is_nearest(h, 100 * rounded(bytes), 1073741824) && gives_hundredths(
                size_text(bytes),
                h,
                " GiB"@,
            ),
{
    if bytes >= 1024 {
        law_rounding(bytes);
        let unit = unit_bytes(bytes);
        let value = 100 * rounded(bytes);
        assert(rounded(bytes) >= 0) by {
            lemma_spacing(bytes);
            lemma_nearest(bytes, spacing(bytes));
            let q = nearest(bytes, spacing(bytes));
            let d = spacing(bytes);
            assert(bytes / d >= 0) by (nonlinear_arith)
                requires
                    bytes >= 0,
                    d > 0,
            ;
            assert(q * d >= 0) by (nonlinear_arith)
                requires
                    q >= 0,
                    d > 0,
            ;
        }
        lemma_nearest(value, unit);
        let h = nearest(value, unit);
        assert(h >= 0);
        assert(h % 100 / 10 == h / 10 % 10);
        assert(text::decimal((h % 100 / 10) as nat) =~= seq![text::digit_char(h / 10 % 10)]);
        assert(text::decimal((h % 10) as nat) =~= seq![text::digit_char(h % 10)]);
        assert(gives_hundredths(size_text(bytes), h, unit_name(bytes))) by {
            let whole = text::decimal((h / 100) as nat) + "."@;
            assert(whole + seq![text::digit_char(h / 10 % 10)] + seq![text::digit_char(h % 10)]
                =~= whole + seq![text::digit_char(h / 10 % 10), text::digit_char(h % 10)]);
        }
        assert(is_nearest(h, value, unit));
    }
}

/// The integer nearest to `n / d`, and of two the even one.
fn nearest_quotient(n: u128, d: u128) -> (q: u128)
    requires
        0 < d,
        d <= 0x4000_0000,
        n <= 0x100_0000_0000_0000_0000,
    ensures
        q == nearest(n as int, d as int),
        q <= n / d + 1,
{
    let low: u128 = n / d;
    let rest: u128 = n % d;
    assert(low <= n) by (nonlinear_arith)
        requires
            low == n / d,
            d > 0,
    ;
    if 2 * rest > d || 2 * rest == d && low % 2 == 1 {
        low + 1
    } else {
        low
    }
}

/// The distance between the numbers of 53 significant bits next to `n`.
fn bit_spacing(n: u64) -> (step: u64)
    ensures
        step == spacing(n as int),
        1 <= step <= 0x1000,
{
    let mut step: u64 = 1;
    let mut rest: u64 = n;
    while rest >= 0x20_0000_0000_0000
        invariant
            1 <= step <= 0x1000,
            step * rest <= n,
            step * spacing(rest as int) == spacing(n as int),
        decreases rest,
    {
        assert(step <= 0x7ff) by (nonlinear_arith)
            requires
                step * rest <= n,
                rest >= 0x20_0000_0000_0000,
                n <= 0xffff_ffff_ffff_ffff,
        ;
        assert((step * 2) * (rest / 2) <= step * rest) by (nonlinear_arith)
            requires
                1 <= step,
        ;
        assert(step * (2 * spacing(rest as int / 2)) == (step * 2) * spacing(rest as int / 2))
            by (nonlinear_arith);
        step = step * 2;
        rest = rest / 2;
    }
    step
}

/// A size as text.
pub fn format_size(bytes: u64) -> (size: String)
    ensures
        size@ == size_text(bytes as int),
{
    let mut size: String = String::new();
    if bytes < 0x400 {
        size.append(text::decimal_text(bytes).as_str());
        size.append(" B");
        return size;
    }
    let step: u128 = bit_spacing(bytes) as u128;
    let steps: u128 = nearest_quotient(bytes as u128, step);
    assert(steps * step <= bytes + step) by (nonlinear_arith)
        requires
            steps <= bytes as int / step as int + 1,
            step > 0,
            bytes >= 0,
    ;
    let value: u128 = 100 * (steps * step);
    let hundredths: u128 = if bytes < 0x10_0000 {
        nearest_quotient(value, 0x400)
    } else if bytes < 0x4000_0000 {
        nearest_quotient(value, 0x10_0000)
    } else {
        nearest_quotient(value, 0x4000_0000)
    };
    assert(hundredths == nearest(100 * rounded(bytes as int), unit_bytes(bytes as int)));
    size.append(text::decimal_text((hundredths / 100) as u64).as_str());
    size.append(".");
    size.append(text::decimal_text((hundredths % 100 / 10) as u64).as_str());
    size.append(text::decimal_text((hundredths % 10) as u64).as_str());
    if bytes < 0x10_0000 {
        size.append(" KiB");
    } else if bytes < 0x4000_0000 {
        size.append(" MiB");
    } else {
        size.append(" GiB");
    }
    size
}

// ---------------------------------------------------------------------------
// Lines
// ---------------------------------------------------------------------------

/// The texts of a list of strings.
pub open spec fn texts(lines: Seq<String>) -> Seq<Seq<char>> {
    lines.map_values(|line: String| line@)
}

/// Lines count in full, in their order.
pub proof fn law_lines_count_in_full(lines: Seq<String>, i: int)
    ensures
        texts(lines).len() == lines.len(),
        0 <= i < lines.len() ==> texts(lines)[i] == lines[i]@,
{
}

/// One line with a label, if there is something to label.
pub open spec fn labelled(label: Seq<char>, value: Option<Seq<char>>) -> Seq<Seq<char>> {
    match value {
        Some(value) => seq![label + value],
        None => seq![],
    }
}

/// The lines about the metadata of a container.
pub open spec fn metadata_report(headers: HeadersView) -> Seq<Seq<char>> {
    match headers.metadata {
        Some(m) => labelled("    标题: "@, m.title) + labelled("    专辑: "@, m.album) + labelled(
            "    格式提示: "@,
            m.format_hint,
        ),
        None => seq![],
    }
}

/// The line that warns of faulty metadata.
pub open spec fn warning_report(headers: HeadersView) -> Option<Seq<char>> {
    match headers.metadata_warning {
        Some(warning) => Some("    警告: 元数据解析失败，但音频已独立解密: "@ + warning),
        None => None,
    }
}

/// What is known of the metadata is shown, each in a line of its own, in full, in
/// this order: title, album, format hint. What is not known has no line.
pub proof fn law_metadata_lines(headers: HeadersView)
    ensures
        headers.metadata is None ==> metadata_report(headers).len() == 0,
        headers.metadata matches Some(m) ==> {
            let report = metadata_report(headers);
            let titles = if m.title is Some {
                1int
            } else {
                0int
            };
            let albums = if m.album is Some {
                1int
            } else {
                0int
            };
            let hints = if m.format_hint is Some {
                1int
            } else {
                0int
            };
            &&& report.len() == titles + albums + hints
            &&& m.title matches Some(title) ==> report[0] == "    标题: "@ + title
            &&& m.album matches Some(album) ==> report[titles] == "    专辑: "@ + album
            &&& m.format_hint matches Some(hint) ==> report[titles + albums]
                == "    格式提示: "@ + hint
        },
{
}

/// A warning is shown exactly where there is one, in full.
pub proof fn law_warning_line(headers: HeadersView)
    ensures
        headers.metadata_warning is None ==> warning_report(headers) is None,
        headers.metadata_warning matches Some(warning) ==> warning_report(headers) == Some(
            "    警告: 元数据解析失败，但音频已独立解密: "@ + warning,
        ),
{
}

/// Adds a line with a label, if there is something to label.
fn push_labelled(lines: &mut Vec<String>, label: &str, value: &Option<String>)
    ensures
        texts(final(lines)@) == texts(old(lines)@) + labelled(
            label@,
            metadata::optional_text(*value),
        ),
{
    let ghost before = lines@;
    match value {
        Some(value) => {
            let mut line: String = String::from_str(label);
            line.append(value.as_str());
            lines.push(line);
            assert(texts(lines@) =~= texts(before) + seq![label@ + value@]);
        },
        None => {
            assert(texts(lines@) =~= texts(before) + Seq::<Seq<char>>::empty());
        },
    }
}

/// The lines about the metadata of a container: title, album and format hint,
/// as far as they are there.
pub fn metadata_lines(headers: &Headers) -> (lines: Vec<String>)
    ensures
        texts(lines@) == metadata_report(headers@),
{
    let mut lines: Vec<String> = Vec::new();
    assert(texts(lines@) =~= seq![]);
    match &headers.metadata {
        Some(m) => {
            push_labelled(&mut lines, "    标题: ", &m.title);
            push_labelled(&mut lines, "    专辑: ", &m.album);
            push_labelled(&mut lines, "    格式提示: ", &m.format_hint);
            assert(texts(lines@) =~= metadata_report(headers@));
        },
        None => {},
    }
    lines
}

/// The line that warns of faulty metadata, if they are faulty.
pub fn warning_line(headers: &Headers) -> (line: Option<String>)
    ensures
        metadata::optional_text(line) == warning_report(headers@),
{
    match &headers.metadata_warning {
        Some(warning) => {
            let mut line: String = String::from_str(
                "    警告: 元数据解析失败，但音频已独立解密: ",
            );
            line.append(warning.as_str());
            Some(line)
        },
        None => None,
    }
}

/// The line about a container that was only looked at.
pub fn info_line(headers: &Headers) -> (line: String)
    ensures
        line@ == audio::extension_text(headers@.format) + "，音频 "@ + size_text(
            headers@.audio_bytes,
        ) + "，封面 "@ + size_text(headers@.cover_bytes),
{
    let mut line: String = String::from_str(headers.format.extension());
    line.append("，音频 ");
    line.append(format_size(headers.audio_bytes).as_str());
    line.append("，封面 ");
    line.append(format_size(headers.cover_bytes).as_str());
    line
}

/// The line about a container whose audio, `bytes` long, was written to `target`.
pub fn written_line(target: &str, bytes: u64, headers: &Headers) -> (line: String)
    ensures
        line@ == "完成 -> "@ + target@ + " ("@ + size_text(bytes as int) + "，"@
            + audio::extension_text(headers@.format) + ")"@,
{
    let mut line: String = String::from_str("完成 -> ");
    line.append(target);
    line.append(" (");
    line.append(format_size(bytes).as_str());
    line.append("，");
    line.append(headers.format.extension());
    line.append(")");
    line
}

} // verus!
