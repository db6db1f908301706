//! The System-Info panel.

use vstd::prelude::*;

use crate::strings::{digit, push_decimal, str_eq};

verus! {

/// Read-only system facts for the System-Info panel.
#[derive(Debug, Clone, PartialEq, Eq)]
pub struct SystemInfo {
    /// Product name (e.g. `NexaCore OS`).
    pub product: String,
    /// OS version.
    pub version: String,
    /// Kernel version string.
    pub kernel: String,
    /// CPU model string.
    pub cpu_model: String,
    /// Logical CPU count.
    pub cpu_cores: u32,
    /// Total RAM in bytes.
    pub total_ram_bytes: u64,
    /// Uptime in seconds.
    pub uptime_secs: u64,
    /// Host name.
    pub hostname: String,
}

/// The System-Info panel: labelled read-only rows.
#[derive(Debug, Clone, PartialEq, Eq)]
pub struct SystemInfoPanel {
    /// The `(label, value)` display rows.
    pub rows: Vec<(String, String)>,
}

/// The characters of some rows.
pub open spec fn row_texts(rows: Seq<(String, String)>) -> Seq<(Seq<char>, Seq<char>)> {
    rows.map_values(|r: (String, String)| (r.0@, r.1@))
}

/// The rows that show some system facts.
pub open spec fn info_rows(info: SystemInfo) -> Seq<(Seq<char>, Seq<char>)> {
    seq![
        ("Product"@, info.product@),
        ("Version"@, info.version@),
        ("Kernel"@, info.kernel@),
        ("Hostname"@, info.hostname@),
        ("Processor"@, info.cpu_model@),
        ("Cores"@, crate::strings::decimal(info.cpu_cores as nat)),
        ("Memory"@, byte_size(info.total_ram_bytes as nat)),
        ("Uptime"@, uptime(info.uptime_secs as nat)),
    ]
}

/// The position of the first row with a label, or the number of rows.
pub open spec fn row_at(rows: Seq<(Seq<char>, Seq<char>)>, label: Seq<char>) -> nat
    decreases rows.len(),
{
    if rows.len() == 0 || rows[0].0 == label {
        0
    } else {
        1 + row_at(rows.drop_first(), label)
    }
}

proof fn lemma_row_at(rows: Seq<(Seq<char>, Seq<char>)>, label: Seq<char>, i: int)
    requires
        0 <= i <= rows.len(),
        forall|j: int| 0 <= j < i ==> (#[trigger] rows[j]).0 != label,
        i < rows.len() ==> rows[i].0 == label,
    ensures
        row_at(rows, label) == i,
    decreases rows.len(),
{
    if i > 0 {
        let rest = rows.drop_first();
        assert forall|j: int| 0 <= j < i - 1 implies (#[trigger] rest[j]).0 != label by {
            assert(rest[j] == rows[j + 1]);
        }
        assert(rows[0].0 != label);
        lemma_row_at(rest, label, i - 1);
    }
}

/// A number of units with one decimal, rounded down, and the unit.
pub open spec fn in_units(bytes: nat, scale: nat, unit: Seq<char>) -> Seq<char> {
    crate::strings::decimal(bytes / scale) + seq!['.', crate::strings::digit_char(
        bytes % scale * 10 / scale,
    ), ' '] + unit
}

/// A number of bytes in the largest unit, up to TiB, of which there is at least one.
pub open spec fn byte_size(bytes: nat) -> Seq<char> {
    if bytes < 0x400 {
        crate::strings::decimal(bytes) + " B"@
    } else if bytes < 0x10_0000 {
        in_units(bytes, 0x400, "KiB"@)
    } else if bytes < 0x4000_0000 {
        in_units(bytes, 0x10_0000, "MiB"@)
    } else if bytes < 0x100_0000_0000 {
        in_units(bytes, 0x4000_0000, "GiB"@)
    } else {
        in_units(bytes, 0x100_0000_0000, "TiB"@)
    }
}

/// A number of seconds as whole days, hours and minutes.
pub open spec fn uptime(secs: nat) -> Seq<char> {
    crate::strings::decimal(secs / 86_400) + "d "@ + crate::strings::decimal(
        secs % 86_400 / 3_600,
    ) + "h "@ + crate::strings::decimal(secs % 3_600 / 60) + "m"@
}

fn format_units(bytes: u64, scale: u64, unit: &str) -> (r: String)
    requires
        0x400 <= scale <= 0x100_0000_0000,
    ensures
        r@ == in_units(bytes as nat, scale as nat, unit@),
{
    let mut s = String::new();
    push_decimal(&mut s, bytes / scale);
    let rest: u64 = bytes % scale;
    proof {
        assert(rest * 10 / (scale as int) < 10) by (nonlinear_arith)
            requires
                0 <= rest < scale,
        ;
    }
    let tenth: u64 = rest * 10 / scale;
    s.push('.');
    s.push(digit(tenth));
    s.push(' ');
    s.push_str(unit);
    assert(s@ =~= in_units(bytes as nat, scale as nat, unit@));
    s
}

/// Human-readable byte size (`B`/`KiB`/`MiB`/`GiB`/`TiB`, one decimal).
pub fn format_bytes(bytes: u64) -> (r: String)
    ensures
        r@ == byte_size(bytes as nat),
{
    if bytes < 0x400 {
        let mut s = String::new();
        push_decimal(&mut s, bytes);
        s.push_str(" B");
        assert(s@ =~= byte_size(bytes as nat));
        s
    } else if bytes < 0x10_0000 {
        format_units(bytes, 0x400, "KiB")
    } else if bytes < 0x4000_0000 {
        format_units(bytes, 0x10_0000, "MiB")
    } else if bytes < 0x100_0000_0000 {
        format_units(bytes, 0x4000_0000, "GiB")
    } else {
        format_units(bytes, 0x100_0000_0000, "TiB")
    }
}

/// Human-readable uptime as `Nd Nh Nm`.
fn format_uptime(secs: u64) -> (r: String)
    ensures
        r@ == uptime(secs as nat),
{
    let mut s = String::new();
    push_decimal(&mut s, secs / 86_400);
    s.push_str("d ");
    push_decimal(&mut s, secs % 86_400 / 3_600);
    s.push_str("h ");
    push_decimal(&mut s, secs % 3_600 / 60);
    s.push_str("m");
    assert(s@ =~= uptime(secs as nat));
    s
}

impl SystemInfoPanel {
    /// Build the panel rows from live [`SystemInfo`] (memory and uptime are formatted for
    /// display).
    pub fn from_info(info: &SystemInfo) -> (r: Self)
        ensures
            row_texts(r.rows@) == info_rows(*info),
    {
        let mut cores = String::new();
        push_decimal(&mut cores, info.cpu_cores as u64);
        proof {
            let d = crate::strings::decimal(info.cpu_cores as nat);
            assert(Seq::<char>::empty() + d == d);
        }
        let mut rows: Vec<(String, String)> = Vec::new();
        rows.push(("Product".to_owned(), info.product.clone()));
        rows.push(("Version".to_owned(), info.version.clone()));
        rows.push(("Kernel".to_owned(), info.kernel.clone()));
        rows.push(("Hostname".to_owned(), info.hostname.clone()));
        rows.push(("Processor".to_owned(), info.cpu_model.clone()));
        rows.push(("Cores".to_owned(), cores));
        rows.push(("Memory".to_owned(), format_bytes(info.total_ram_bytes)));
        rows.push(("Uptime".to_owned(), format_uptime(info.uptime_secs)));
        assert(row_texts(rows@) =~= info_rows(*info));
        SystemInfoPanel { rows }
    }

    /// The value for a labelled row, if present.
    pub fn value(&self, label: &str) -> (r: Option<&str>)
        ensures
            ({
                let rows = row_texts(self.rows@);
                let i = row_at(rows, label@) as int;
                match r {
                    Some(v) => i < rows.len() && v@ == rows[i].1,
                    None => i >= rows.len(),
                }
            }),
    {
        let ghost rows = row_texts(self.rows@);
        let mut i: usize = 0;
        while i < self.rows.len() && !str_eq(self.rows[i].0.as_str(), label)
            invariant
                i <= self.rows@.len(),
                rows == row_texts(self.rows@),
                forall|j: int| 0 <= j < i ==> (#[trigger] rows[j]).0 != label@,
            decreases self.rows@.len() - i,
        {
            i = i + 1;
        }
        proof {
            lemma_row_at(rows, label@, i as int);
        }
        if i < self.rows.len() {
            Some(self.rows[i].1.as_str())
        } else {
            None
        }
    }
}

/// The name of the unit of `1024^power` bytes.
pub open spec fn unit_name(power: nat) -> Seq<char> {
    if power == 1 {
        "KiB"@
    } else if power == 2 {
        "MiB"@
    } else if power == 3 {
        "GiB"@
    } else {
        "TiB"@
    }
}

/// A size is shown in the largest unit that it reaches, in tenths of it, rounded down.
pub proof fn law_sizes_are_shown_in_tenths(bytes: nat, power: nat, tenths: nat)
    requires
        1 <= power <= 4,
        vstd::arithmetic::power::pow(1024, power) <= bytes,
        power < 4 ==> bytes < vstd::arithmetic::power::pow(1024, power + 1),
        tenths * vstd::arithmetic::power::pow(1024, power) <= 10 * bytes < (tenths + 1)
            * vstd::arithmetic::power::pow(1024, power),
    ensures
        byte_size(bytes) == crate::strings::decimal(tenths / 10) + seq![
            '.',
            crate::strings::digit_char(tenths % 10),
            ' ',
        ] + unit_name(power),
{
    reveal_with_fuel(vstd::arithmetic::power::pow, 6);
    let scale = vstd::arithmetic::power::pow(1024, power);
    assert(vstd::arithmetic::power::pow(1024, 1) == 0x400);
    assert(vstd::arithmetic::power::pow(1024, 2) == 0x10_0000);
    assert(vstd::arithmetic::power::pow(1024, 3) == 0x4000_0000);
    assert(vstd::arithmetic::power::pow(1024, 4) == 0x100_0000_0000);
    assert(vstd::arithmetic::power::pow(1024, 5) == 0x4_0000_0000_0000);
    let n = bytes as int;
    let t = tenths as int;
    assert(t / 10 == n / scale && t % 10 == n % scale * 10 / scale) by {
        let q = n / scale;
        let m = n % scale;
        let d = m * 10 / scale;
        vstd::arithmetic::div_mod::lemma_fundamental_div_mod(n, scale);
        vstd::arithmetic::div_mod::lemma_fundamental_div_mod(m * 10, scale);
        assert(0 <= d < 10 && t == 10 * q + d) by (nonlinear_arith)
            requires
                scale > 0,
                n == scale * q + m,
                0 <= m < scale,
                m * 10 == scale * d + m * 10 % scale,
                0 <= m * 10 % scale < scale,
                t * scale <= 10 * n < (t + 1) * scale,
        ;
    }
}

/// The days, hours and minutes of an uptime make up its seconds, but for less than a minute.
pub proof fn law_uptime_is_shown_to_the_minute(secs: nat, days: nat, hours: nat, minutes: nat)
    requires
        hours < 24,
        minutes < 60,
        86_400 * days + 3_600 * hours + 60 * minutes <= secs < 86_400 * days + 3_600 * hours + 60 * (
        minutes + 1),
    ensures
        uptime(secs) == crate::strings::decimal(days) + "d "@ + crate::strings::decimal(hours)
            + "h "@ + crate::strings::decimal(minutes) + "m"@,
{
    assert(secs / 86_400 == days);
    assert(secs % 86_400 / 3_600 == hours);
    assert(secs % 3_600 / 60 == minutes);
}

} // verus!
