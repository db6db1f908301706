//! Locale-aware numbers, dates and times.

use vstd::prelude::*;

use crate::strings::{push_decimal, push_padded, str_eq, to_chars};

verus! {

/// The language of a locale tag: what stands before the first `-` or `_`.
pub open spec fn language(locale: Seq<char>) -> Seq<char>
    decreases locale.len(),
{
    if locale.len() == 0 || locale[0] == '-' || locale[0] == '_' {
        Seq::empty()
    } else {
        seq![locale[0]] + language(locale.drop_first())
    }
}

/// The primary language subtag of a locale tag (the part before the first `-` or
/// `_`).
pub fn primary_subtag(locale: &str) -> (r: &str)
    ensures
        r@ == language(locale@),
{
    let v = to_chars(locale);
    let mut end: usize = 0;
    assert(v@.skip(0) == v@);
    assert(v@.take(0) + language(v@) == language(v@));
    while end < v.len() && v[end] != '-' && v[end] != '_'
        invariant
            end <= v@.len(),
            v@ == locale@,
            language(v@) == v@.take(end as int) + language(v@.skip(end as int)),
        decreases v@.len() - end,
    {
        proof {
            let rest = v@.skip(end as int);
            assert(rest[0] == v@[end as int]);
            assert(rest.drop_first() == v@.skip(end + 1));
            assert(v@.take(end as int) + (seq![rest[0]] + language(rest.drop_first()))
                == v@.take(end + 1) + language(v@.skip(end + 1)));
        }
        end = end + 1;
    }
    proof {
        if end < v@.len() {
            assert(v@.skip(end as int)[0] == v@[end as int]);
        }
        assert(v@.take(end as int) + Seq::<char>::empty() == v@.take(end as int));
        assert(v@.take(end as int) == v@.subrange(0, end as int));
    }
    locale.substring_char(0, end)
}

// ---------------------------------------------------------------------------
// Numbers
// ---------------------------------------------------------------------------

/// `digits` with `sep` between groups of `size`, counted from the right. Size 0 makes no groups.
pub open spec fn grouped(digits: Seq<char>, size: nat, sep: char) -> Seq<char>
    decreases digits.len(),
{
    if size == 0 || digits.len() <= size {
        digits
    } else {
        let cut = digits.len() - size;
        grouped(digits.take(cut), size, sep).push(sep) + digits.skip(cut)
    }
}

/// A minus sign for a negative number, else nothing.
pub open spec fn sign(n: int) -> Seq<char> {
    if n < 0 {
        seq!['-']
    } else {
        Seq::empty()
    }
}

/// The magnitude of a number.
pub open spec fn magnitude(n: int) -> nat {
    if n < 0 {
        (-n) as nat
    } else {
        n as nat
    }
}

/// Locale-aware number formatting.
///
/// Holds the grouping (thousands) separator, the decimal separator, and the
/// grouping size for a locale. Formatting works over integers and fixed-point
/// values, so there is no rounding to vary the output.
#[derive(Debug, Clone, Copy, PartialEq, Eq, Structural)]
pub struct NumberFormat {
    grouping: char,
    decimal: char,
    group_size: usize,
}

impl NumberFormat {
    /// The separator between groups of digits.
    pub closed spec fn group_sep(self) -> char {
        self.grouping
    }

    /// The separator before the fraction.
    pub closed spec fn decimal_sep(self) -> char {
        self.decimal
    }

    /// The number of digits in a group.
    pub closed spec fn size(self) -> nat {
        self.group_size as nat
    }

    /// The text of an integer.
    pub open spec fn integer_text(self, n: int) -> Seq<char> {
        sign(n) + grouped(crate::strings::decimal(magnitude(n)), self.size(), self.group_sep())
    }

    /// The text of `value` scaled down by `10^frac`.
    pub open spec fn fixed_text(self, value: int, frac: nat) -> Seq<char> {
        if frac == 0 {
            self.integer_text(value)
        } else {
            let digits = crate::strings::zero_padded(
                crate::strings::decimal(magnitude(value)),
                frac + 1,
            );
            let cut = digits.len() - frac;
            (sign(value) + grouped(digits.take(cut), self.size(), self.group_sep())).push(
                self.decimal_sep(),
            ) + digits.skip(cut)
        }
    }

    /// A number format with the given `grouping` and `decimal` separators and a
    /// grouping size of 3.
    pub fn new(grouping: char, decimal: char) -> (r: Self)
        ensures
            r.group_sep() == grouping,
            r.decimal_sep() == decimal,
            r.size() == 3,
    {
        NumberFormat { grouping, decimal, group_size: 3 }
    }

    /// The number format for `locale`.
    ///
    /// Recognises the primary subtag (e.g. `it` from `it-IT`). English uses
    /// `1,234.56`; Italian/German/Spanish/Portuguese/Dutch/Danish use `1.234,56`;
    /// French uses `1 234,56`. An unknown locale falls back to the English style.
    pub fn for_locale(locale: &str) -> (r: Self)
        ensures
            r.size() == 3,
            ({
                let tag = language(locale@);
                if tag == "it"@ || tag == "de"@ || tag == "es"@ || tag == "pt"@ || tag == "nl"@
                    || tag == "da"@ {
                    r.group_sep() == '.' && r.decimal_sep() == ','
                } else if tag == "fr"@ {
                    r.group_sep() == ' ' && r.decimal_sep() == ','
                } else {
                    r.group_sep() == ',' && r.decimal_sep() == '.'
                }
            }),
    {
        let t = primary_subtag(locale);
        if str_eq(t, "it") || str_eq(t, "de") || str_eq(t, "es") || str_eq(t, "pt") || str_eq(
            t,
            "nl",
        ) || str_eq(t, "da") {
            Self::new('.', ',')
        } else if str_eq(t, "fr") {
            Self::new(' ', ',')
        } else {
            Self::new(',', '.')
        }
    }

    /// The grouping (thousands) separator.
    pub fn grouping(self) -> (r: char)
        ensures
            r == self.group_sep(),
    {
        self.grouping
    }

    /// The decimal separator.
    pub fn decimal(self) -> (r: char)
        ensures
            r == self.decimal_sep(),
    {
        self.decimal
    }

    /// Formats a signed integer with grouping, e.g. `-1,234,567`.
    pub fn format_i64(&self, n: i64) -> (r: String)
        ensures
            r@ == self.integer_text(n as int),
    {
        let mut out = String::new();
        if n < 0 {
            out.push('-');
        }
        assert(out@ == sign(n as int));
        let v = digits_of(n);
        self.group_digits(&mut out, v.as_slice(), v.len());
        assert(v@.take(v@.len() as int) == v@);
        out
    }

    /// Formats a fixed-point value: `value` scaled by `10^frac`, with `frac`
    /// fractional digits.
    ///
    /// `format_fixed(123_456, 2)` is `"1,234.56"` (English). `frac == 0` is
    /// equivalent to [`NumberFormat::format_i64`]. This is exact.
    pub fn format_fixed(&self, value: i64, frac: usize) -> (r: String)
        requires
            frac < usize::MAX,
        ensures
            r@ == self.fixed_text(value as int, frac as nat),
    {
        if frac == 0 {
            return self.format_i64(value);
        }
        let mut out = String::new();
        if value < 0 {
            out.push('-');
        }
        assert(out@ == sign(value as int));
        let mut padded = String::new();
        push_padded(&mut padded, abs(value), frac + 1);
        let v = to_chars(padded.as_str());
        proof {
            assert(Seq::<char>::empty() + v@ == v@);
            crate::strings::lemma_decimal_round_trip(magnitude(value as int));
        }
        let cut: usize = v.len() - frac;
        self.group_digits(&mut out, v.as_slice(), cut);
        out.push(self.decimal);
        let ghost head = out@;
        let mut i: usize = cut;
        while i < v.len()
            invariant
                cut <= i <= v@.len(),
                out@ == head + v@.subrange(cut as int, i as int),
            decreases v@.len() - i,
        {
            out.push(v[i]);
            i = i + 1;
            assert(head + v@.subrange(cut as int, i as int) == (head + v@.subrange(
                cut as int,
                i - 1,
            )).push(v@[i - 1]));
        }
        assert(v@.subrange(cut as int, v@.len() as int) == v@.skip(cut as int));
        out
    }

    /// Appends the first `end` digits with the grouping separator between groups.
    fn group_digits(&self, out: &mut String, digits: &[char], end: usize)
        requires
            end <= digits@.len(),
        ensures
            final(out)@ == old(out)@ + grouped(
                digits@.take(end as int),
                self.size(),
                self.group_sep(),
            ),
    {
        let ghost start = out@;
        let size: usize = self.group_size;
        if size == 0 || end <= size {
            let mut i: usize = 0;
            while i < end
                invariant
                    i <= end <= digits@.len(),
                    out@ == start + digits@.take(i as int),
                decreases end - i,
            {
                out.push(digits[i]);
                i = i + 1;
                assert(start + digits@.take(i as int) == (start + digits@.take(i - 1)).push(
                    digits@[i - 1],
                ));
            }
            return;
        }
        let cut: usize = end - size;
        self.group_tail(out, digits, cut, end);
    }

    fn group_tail(&self, out: &mut String, digits: &[char], cut: usize, end: usize)
        requires
            0 < self.size(),
            self.size() < end <= digits@.len(),
            cut == end - self.size(),
        ensures
            final(out)@ == old(out)@ + grouped(
                digits@.take(end as int),
                self.size(),
                self.group_sep(),
            ),
        decreases end,
    {
        let ghost start = out@;
        let size: usize = self.group_size;
        if cut > size {
            self.group_tail(out, digits, cut - size, cut);
        } else {
            let mut i: usize = 0;
            while i < cut
                invariant
                    i <= cut <= digits@.len(),
                    out@ == start + digits@.take(i as int),
                decreases cut - i,
            {
                out.push(digits[i]);
                i = i + 1;
                assert(start + digits@.take(i as int) == (start + digits@.take(i - 1)).push(
                    digits@[i - 1],
                ));
            }
        }
        let ghost all = digits@.take(end as int);
        let ghost head = grouped(digits@.take(cut as int), size as nat, self.grouping);
        assert(out@ == start + head);
        out.push(self.grouping);
        let mut i: usize = cut;
        while i < end
            invariant
                cut <= i <= end <= digits@.len(),
                out@ == (start + head).push(self.grouping) + digits@.subrange(cut as int, i as int),
            decreases end - i,
        {
            out.push(digits[i]);
            i = i + 1;
            assert(digits@.subrange(cut as int, i as int) == digits@.subrange(
                cut as int,
                i - 1,
            ).push(digits@[i - 1]));
        }
        proof {
            assert(all.take(cut as int) == digits@.take(cut as int));
            assert(all.skip(cut as int) == digits@.subrange(cut as int, end as int));
            assert((start + head).push(self.grouping) + all.skip(cut as int) == start + (head.push(
                self.grouping,
            ) + all.skip(cut as int)));
        }
    }
}

/// The magnitude of a number.
fn abs(n: i64) -> (r: u64)
    ensures
        r == magnitude(n as int),
{
    if n < 0 {
        (-(n as i128)) as u64
    } else {
        n as u64
    }
}

/// The decimal digits of the magnitude of a number.
fn digits_of(n: i64) -> (r: Vec<char>)
    ensures
        r@ == crate::strings::decimal(magnitude(n as int)),
{
    let mut s = String::new();
    push_decimal(&mut s, abs(n));
    assert(Seq::<char>::empty() + s@ == s@);
    to_chars(s.as_str())
}

/// `s` without any `c`.
pub open spec fn without(s: Seq<char>, c: char) -> Seq<char> {
    s.filter(|x: char| x != c)
}

proof fn lemma_without_concat(a: Seq<char>, b: Seq<char>, c: char)
    ensures
        without(a + b, c) == without(a, c) + without(b, c),
{
    Seq::filter_distributes_over_add(a, b, |x: char| x != c);
}

proof fn lemma_without_absent(s: Seq<char>, c: char)
    requires
        forall|i: int| 0 <= i < s.len() ==> s[i] != c,
    ensures
        without(s, c) == s,
    decreases s.len(),
{
    reveal(Seq::filter);
    if s.len() > 0 {
        lemma_without_absent(s.drop_last(), c);
        assert(s == s.drop_last().push(s.last()));
    } else {
        assert(without(s, c) =~= s);
    }
}

/// Grouping changes nothing but the separators: without them the digits are as they were.
pub proof fn law_grouping_keeps_the_digits(digits: Seq<char>, size: nat, sep: char)
    requires
        forall|i: int| 0 <= i < digits.len() ==> digits[i] != sep,
    ensures
        without(grouped(digits, size, sep), sep) == digits,
    decreases digits.len(),
{
    if size == 0 || digits.len() <= size {
        lemma_without_absent(digits, sep);
    } else {
        let cut = digits.len() - size;
        let head = grouped(digits.take(cut), size, sep);
        let tail = digits.skip(cut);
        law_grouping_keeps_the_digits(digits.take(cut), size, sep);
        lemma_without_absent(tail, sep);
        lemma_without_concat(head.push(sep), tail, sep);
        assert(head.push(sep) == head + seq![sep]);
        lemma_without_concat(head, seq![sep], sep);
        assert(without(seq![sep], sep) =~= Seq::empty()) by {
            reveal(Seq::filter);
            assert(seq![sep].drop_last() =~= Seq::empty());
            assert(without(Seq::<char>::empty(), sep) =~= Seq::empty());
        }
        assert(digits.take(cut) + tail == digits);
        assert(without(head, sep) + Seq::<char>::empty() == without(head, sep));
    }
}

// ---------------------------------------------------------------------------
// Dates and times
// ---------------------------------------------------------------------------

/// A plain civil date-time (no time zone), the input to [`DateTimeFormat`].
#[derive(Debug, Clone, Copy, PartialEq, Eq, Structural)]
pub struct CivilDateTime {
    /// Full year, e.g. `2026`.
    pub year: i32,
    /// Month, `1..=12`.
    pub month: u8,
    /// Day of month, `1..=31`.
    pub day: u8,
    /// Hour, `0..=23`.
    pub hour: u8,
    /// Minute, `0..=59`.
    pub minute: u8,
    /// Second, `0..=59`.
    pub second: u8,
}

/// The order of the day/month/year fields in a formatted date.
#[derive(Debug, Clone, Copy, PartialEq, Eq, Structural)]
pub enum DateOrder {
    /// Year-month-day, e.g. `2026-07-11` (ISO, Japanese).
    Ymd,
    /// Day-month-year, e.g. `11/07/2026` (most of Europe).
    Dmy,
    /// Month-day-year, e.g. `07/11/2026` (US English).
    Mdy,
}

/// Locale-aware date/time formatting.
#[derive(Debug, Clone, Copy, PartialEq, Eq, Structural)]
pub struct DateTimeFormat {
    order: DateOrder,
    date_sep: char,
    time_sep: char,
    hour24: bool,
}

/// Two digits of a date or time field.
pub open spec fn two_digits(n: u8) -> Seq<char> {
    crate::strings::zero_padded(crate::strings::decimal(n as nat), 2)
}

/// A year in at least four characters, the minus sign of a negative year being one of them.
pub open spec fn year_text(y: int) -> Seq<char> {
    if y < 0 {
        seq!['-'] + crate::strings::zero_padded(crate::strings::decimal((-y) as nat), 3)
    } else {
        crate::strings::zero_padded(crate::strings::decimal(y as nat), 4)
    }
}

/// The fields of a date or time with a separator between them.
pub open spec fn three_fields(a: Seq<char>, b: Seq<char>, c: Seq<char>, sep: char) -> Seq<char> {
    (a.push(sep) + b).push(sep) + c
}

/// The hour on a 12-hour clock.
pub open spec fn clock_hour(hour24: u8) -> int {
    if hour24 % 12 == 0 {
        12
    } else {
        (hour24 % 12) as int
    }
}

/// The half of the day.
pub open spec fn meridiem(hour24: u8) -> Seq<char> {
    if hour24 < 12 {
        "AM"@
    } else {
        "PM"@
    }
}

/// How a locale writes dates and times: field order, date separator, 24-hour clock.
pub open spec fn date_style(locale: Seq<char>) -> (DateOrder, char, bool) {
    let tag = language(locale);
    if locale == "en-US"@ || locale == "en_US"@ {
        (DateOrder::Mdy, '/', false)
    } else if locale == "en-GB"@ || locale == "en_GB"@ {
        (DateOrder::Dmy, '/', true)
    } else if tag == "it"@ || tag == "fr"@ || tag == "es"@ || tag == "pt"@ || tag == "nl"@ {
        (DateOrder::Dmy, '/', true)
    } else if tag == "de"@ || tag == "da"@ {
        (DateOrder::Dmy, '.', true)
    } else if tag == "en"@ {
        (DateOrder::Mdy, '/', false)
    } else if tag == "ja"@ || tag == "zh"@ || tag == "ko"@ {
        (DateOrder::Ymd, '/', true)
    } else {
        (DateOrder::Ymd, '-', true)
    }
}

impl DateTimeFormat {
    /// Whether this is the format with the given parts.
    pub closed spec fn is(self, order: DateOrder, date_sep: char, time_sep: char, hour24: bool) -> bool {
        self == (DateTimeFormat { order, date_sep, time_sep, hour24 })
    }

    /// The text of a date.
    pub closed spec fn date_text(self, dt: CivilDateTime) -> Seq<char> {
        date_in_order(self.order, self.date_sep, dt)
    }

    /// The text of a time.
    pub closed spec fn time_text(self, dt: CivilDateTime) -> Seq<char> {
        time_on_clock(self.hour24, self.time_sep, dt)
    }

    /// The parts that a format was made of determine every date and time that it writes.
    pub proof fn law_parts_determine_the_text(self, order: DateOrder, date_sep: char, time_sep: char, hour24: bool)
        requires
            self.is(order, date_sep, time_sep, hour24),
        ensures
            forall|dt: CivilDateTime| #[trigger]
                self.date_text(dt) == date_in_order(order, date_sep, dt),
            forall|dt: CivilDateTime| #[trigger]
                self.time_text(dt) == time_on_clock(hour24, time_sep, dt),
    {
    }

    /// A date/time format with the given date field order, date separator, time
    /// separator (usually `:`) and 12-/24-hour clock.
    pub fn new(order: DateOrder, date_sep: char, time_sep: char, hour24: bool) -> (r: Self)
        ensures
            r.is(order, date_sep, time_sep, hour24),
    {
        DateTimeFormat { order, date_sep, time_sep, hour24 }
    }

    /// The date/time format for `locale`.
    ///
    /// `en-US` uses `MM/DD/YYYY` with a 12-hour clock; `en-GB`, Italian, French
    /// and Spanish use `DD/MM/YYYY` 24-hour; German uses `DD.MM.YYYY`; Japanese,
    /// Chinese and Korean use `YYYY/MM/DD`. Unknown locales fall back to ISO
    /// `YYYY-MM-DD` 24-hour.
    pub fn for_locale(locale: &str) -> (r: Self)
        ensures
            r.is(date_style(locale@).0, date_style(locale@).1, ':', date_style(locale@).2),
    {
        if str_eq(locale, "en-US") || str_eq(locale, "en_US") {
            return Self::new(DateOrder::Mdy, '/', ':', false);
        }
        if str_eq(locale, "en-GB") || str_eq(locale, "en_GB") {
            return Self::new(DateOrder::Dmy, '/', ':', true);
        }
        let t = primary_subtag(locale);
        if str_eq(t, "it") || str_eq(t, "fr") || str_eq(t, "es") || str_eq(t, "pt") || str_eq(
            t,
            "nl",
        ) {
            Self::new(DateOrder::Dmy, '/', ':', true)
        } else if str_eq(t, "de") || str_eq(t, "da") {
            Self::new(DateOrder::Dmy, '.', ':', true)
        } else if str_eq(t, "en") {
            Self::new(DateOrder::Mdy, '/', ':', false)
        } else if str_eq(t, "ja") || str_eq(t, "zh") || str_eq(t, "ko") {
            Self::new(DateOrder::Ymd, '/', ':', true)
        } else {
            Self::new(DateOrder::Ymd, '-', ':', true)
        }
    }

    /// Formats the date part, with zero-padded month/day and a 4-digit year.
    pub fn format_date(&self, dt: &CivilDateTime) -> (r: String)
        ensures
            r@ == self.date_text(*dt),
    {
        let mut out = String::new();
        let s = self.date_sep;
        match self.order {
            DateOrder::Ymd => {
                push_year(&mut out, dt.year);
                assert(Seq::<char>::empty() + year_text(dt.year as int) == year_text(
                    dt.year as int,
                ));
                out.push(s);
                push_padded(&mut out, dt.month as u64, 2);
                out.push(s);
                push_padded(&mut out, dt.day as u64, 2);
            },
            DateOrder::Dmy => {
                push_padded(&mut out, dt.day as u64, 2);
                assert(Seq::<char>::empty() + two_digits(dt.day) == two_digits(dt.day));
                out.push(s);
                push_padded(&mut out, dt.month as u64, 2);
                out.push(s);
                push_year(&mut out, dt.year);
            },
            DateOrder::Mdy => {
                push_padded(&mut out, dt.month as u64, 2);
                assert(Seq::<char>::empty() + two_digits(dt.month) == two_digits(dt.month));
                out.push(s);
                push_padded(&mut out, dt.day as u64, 2);
                out.push(s);
                push_year(&mut out, dt.year);
            },
        }
        out
    }

    /// Formats the time part: `HH:MM:SS` on a 24-hour clock, or `H:MM:SS AM/PM` on
    /// a 12-hour clock.
    pub fn format_time(&self, dt: &CivilDateTime) -> (r: String)
        ensures
            r@ == self.time_text(*dt),
    {
        let sep = self.time_sep;
        let mut out = String::new();
        if self.hour24 {
            push_padded(&mut out, dt.hour as u64, 2);
            assert(Seq::<char>::empty() + two_digits(dt.hour) == two_digits(dt.hour));
            out.push(sep);
            push_padded(&mut out, dt.minute as u64, 2);
            out.push(sep);
            push_padded(&mut out, dt.second as u64, 2);
        } else {
            let (h12, half) = to_12_hour(dt.hour);
            push_decimal(&mut out, h12 as u64);
            assert(Seq::<char>::empty() + crate::strings::decimal(h12 as nat)
                == crate::strings::decimal(h12 as nat));
            out.push(sep);
            push_padded(&mut out, dt.minute as u64, 2);
            out.push(sep);
            push_padded(&mut out, dt.second as u64, 2);
            out.push(' ');
            out.push_str(half);
        }
        out
    }

    /// Formats the full date-time as `<date> <time>`.
    pub fn format_datetime(&self, dt: &CivilDateTime) -> (r: String)
        ensures
            r@ == self.date_text(*dt).push(' ') + self.time_text(*dt),
    {
        let mut out = self.format_date(dt);
        out.push(' ');
        let time = self.format_time(dt);
        out.push_str(time.as_str());
        out
    }
}

/// The text of a date with its fields in the given order.
pub open spec fn date_in_order(order: DateOrder, sep: char, dt: CivilDateTime) -> Seq<char> {
    let y = year_text(dt.year as int);
    let m = two_digits(dt.month);
    let d = two_digits(dt.day);
    match order {
        DateOrder::Ymd => three_fields(y, m, d, sep),
        DateOrder::Dmy => three_fields(d, m, y, sep),
        DateOrder::Mdy => three_fields(m, d, y, sep),
    }
}

/// The text of a time on a 24-hour or 12-hour clock.
pub open spec fn time_on_clock(hour24: bool, sep: char, dt: CivilDateTime) -> Seq<char> {
    let m = two_digits(dt.minute);
    let s = two_digits(dt.second);
    if hour24 {
        three_fields(two_digits(dt.hour), m, s, sep)
    } else {
        three_fields(crate::strings::decimal(clock_hour(dt.hour) as nat), m, s, sep).push(' ')
            + meridiem(dt.hour)
    }
}

/// Appends a year in at least four characters.
fn push_year(out: &mut String, year: i32)
    ensures
        final(out)@ == old(out)@ + year_text(year as int),
{
    let ghost start = out@;
    if year < 0 {
        out.push('-');
        push_padded(out, (-(year as i64)) as u64, 3);
        proof {
            let digits = crate::strings::zero_padded(crate::strings::decimal((-year) as nat), 3);
            assert(start.push('-') + digits == start + (seq!['-'] + digits));
        }
    } else {
        push_padded(out, year as u64, 4);
    }
}

/// Converts a 24-hour hour to a (12-hour hour, meridiem) pair.
pub fn to_12_hour(hour24: u8) -> (r: (u8, &'static str))
    ensures
        r.0 == clock_hour(hour24),
        r.1@ == meridiem(hour24),
{
    let half: &'static str = if hour24 < 12 {
        "AM"
    } else {
        "PM"
    };
    let h: u8 = hour24 % 12;
    let h12: u8 = if h == 0 {
        12
    } else {
        h
    };
    (h12, half)
}

/// The language of a tag is its beginning up to the first separator.
pub proof fn law_language_is_the_first_part(locale: Seq<char>)
    ensures
        ({
            let tag = language(locale);
            &&& tag.len() <= locale.len()
            &&& tag == locale.take(tag.len() as int)
            &&& !tag.contains('-')
            &&& !tag.contains('_')
            &&& tag.len() < locale.len() ==> locale[tag.len() as int] == '-' || locale[tag.len() as int]
                == '_'
        }),
    decreases locale.len(),
{
    if locale.len() > 0 && locale[0] != '-' && locale[0] != '_' {
        let rest = locale.drop_first();
        law_language_is_the_first_part(rest);
        let tag = language(locale);
        let inner = language(rest);
        assert(tag =~= locale.take(tag.len() as int)) by {
            assert(inner =~= rest.take(inner.len() as int));
        }
        assert forall|c: char| #[trigger] tag.contains(c) implies c == locale[0] || inner.contains(
            c,
        ) by {
            let k = choose|k: int| 0 <= k < tag.len() && tag[k] == c;
            if k > 0 {
                assert(inner[k - 1] == c);
            }
        }
    } else {
        assert(locale.take(0) =~= Seq::empty());
    }
}

/// Groups are counted from the right: reading a grouped number backwards, every character behind
/// `size` digits is a separator, and the others are the digits.
pub proof fn law_groups_are_counted_from_the_right(
    digits: Seq<char>,
    size: nat,
    sep: char,
    j: int,
)
    requires
        size > 0,
        digits.len() > 0,
        0 <= j < grouped(digits, size, sep).len(),
    ensures
        ({
            let g = grouped(digits, size, sep);
            let n = (size + 1) as int;
            &&& g.len() == digits.len() + (digits.len() - 1) / size as int
            &&& g[g.len() - 1 - j] == if j % n == size {
                sep
            } else {
                digits[digits.len() - 1 - (j - j / n)]
            }
        }),
    decreases digits.len(),
{
    let g = grouped(digits, size, sep);
    let n = (size + 1) as int;
    let d = digits.len() as int;
    let z = size as int;
    if d <= size {
        assert((d - 1) / z == 0) by (nonlinear_arith)
            requires
                0 <= d - 1 < z,
        ;
        vstd::arithmetic::div_mod::lemma_small_mod(j as nat, n as nat);
        assert(j / n == 0) by (nonlinear_arith)
            requires
                0 <= j < n,
        ;
    } else {
        let cut = d - size;
        let head = digits.take(cut);
        let h = grouped(head, size, sep);
        let tail = digits.skip(cut);
        assert(g.len() == h.len() + 1 + size);
        lemma_grouped_len(head, size, sep);
        assert((d - 1) / z == (cut - 1) / z + 1) by {
            vstd::arithmetic::div_mod::lemma_div_plus_one(cut - 1, z);
        }
        if j < size {
            vstd::arithmetic::div_mod::lemma_small_mod(j as nat, n as nat);
            assert(j / n == 0) by (nonlinear_arith)
                requires
                    0 <= j < n,
            ;
            assert(g[g.len() - 1 - j] == tail[size - 1 - j]);
        } else if j == size {
            vstd::arithmetic::div_mod::lemma_small_mod(j as nat, n as nat);
            assert(g[g.len() - 1 - j] == sep);
        } else {
            let i = j - n;
            law_groups_are_counted_from_the_right(head, size, sep, i);
            vstd::arithmetic::div_mod::lemma_mod_add_multiples_vanish(i, n);
            vstd::arithmetic::div_mod::lemma_div_plus_one(i, n);
            assert(j % n == i % n);
            assert(j / n == i / n + 1);
            assert(g[g.len() - 1 - j] == h[h.len() - 1 - i]);
            if i % n != size {
                let back = i - i / n;
                assert(j - j / n == back + size);
                lemma_digit_place(head, size, sep, i);
                assert(head[cut - 1 - back] == digits[cut - 1 - back]);
            }
        }
    }
}

proof fn lemma_grouped_len(digits: Seq<char>, size: nat, sep: char)
    requires
        size > 0,
        digits.len() > 0,
    ensures
        grouped(digits, size, sep).len() == digits.len() + (digits.len() - 1) / size as int,
    decreases digits.len(),
{
    let d = digits.len() as int;
    let z = size as int;
    if d <= size {
        assert((d - 1) / z == 0) by (nonlinear_arith)
            requires
                0 <= d - 1 < z,
        ;
    } else {
        lemma_grouped_len(digits.take(d - size), size, sep);
        vstd::arithmetic::div_mod::lemma_div_plus_one(d - z - 1, z);
    }
}

/// The place of a digit of a grouped number is one of the digits'.
proof fn lemma_digit_place(digits: Seq<char>, size: nat, sep: char, j: int)
    requires
        size > 0,
        digits.len() > 0,
        0 <= j < grouped(digits, size, sep).len(),
        j % (size + 1) as int != size,
    ensures
        0 <= j - j / (size + 1) as int <= digits.len() - 1,
    decreases digits.len(),
{
    let n = (size + 1) as int;
    let d = digits.len() as int;
    if d <= size {
        assert(j / n == 0) by (nonlinear_arith)
            requires
                0 <= j < n,
        ;
    } else if j < n {
        assert(j / n == 0) by (nonlinear_arith)
            requires
                0 <= j < n,
        ;
        vstd::arithmetic::div_mod::lemma_small_mod(j as nat, n as nat);
    } else {
        let i = j - n;
        let head = digits.take(d - size);
        assert(grouped(digits, size, sep).len() == grouped(head, size, sep).len() + 1 + size);
        vstd::arithmetic::div_mod::lemma_mod_add_multiples_vanish(i, n);
        vstd::arithmetic::div_mod::lemma_div_plus_one(i, n);
        lemma_digit_place(head, size, sep, i);
    }
}

/// A fixed-point value is written exactly: a sign if it is negative, the whole part in groups, the
/// decimal separator, and as many digits as there are decimal places; the digits of both parts
/// together are those of the value.
pub proof fn law_fixed_point_is_exact(f: NumberFormat, value: int, frac: nat) -> (parts: (
    Seq<char>,
    Seq<char>,
))
    requires
        frac > 0,
    ensures
        ({
            let (whole, fraction) = parts;
            &&& f.fixed_text(value, frac) == sign(value) + grouped(whole, f.size(), f.group_sep())
                + seq![f.decimal_sep()] + fraction
            &&& whole.len() > 0
            &&& fraction.len() == frac
            &&& crate::strings::all_digits(whole + fraction)
            &&& crate::strings::decimal_value(whole + fraction) == (if value < 0 {
                -value
            } else {
                value
            })
            &&& whole.len() > 1 ==> whole[0] != '0'
        }),
{
    let m = magnitude(value);
    let d = crate::strings::decimal(m);
    let digits = crate::strings::zero_padded(d, frac + 1);
    let cut = digits.len() - frac;
    let whole = digits.take(cut);
    let fraction = digits.skip(cut);
    crate::strings::law_decimal_places(m);
    assert(whole + fraction =~= digits);
    let zeros = (digits.len() - d.len()) as nat;
    assert(digits =~= Seq::new(zeros, |i: int| '0') + d);
    lemma_zeros_in_front(zeros, d);
    if whole.len() > 1 {
        assert(digits.len() > frac + 1);
        assert(digits == d);
    }
    let g = grouped(whole, f.size(), f.group_sep());
    assert((sign(value) + g).push(f.decimal_sep()) =~= sign(value) + g + seq![f.decimal_sep()]);
    (whole, fraction)
}

proof fn lemma_zeros_in_front(n: nat, d: Seq<char>)
    requires
        crate::strings::all_digits(d),
    ensures
        crate::strings::all_digits(Seq::new(n, |i: int| '0') + d),
        crate::strings::decimal_value(Seq::new(n, |i: int| '0') + d)
            == crate::strings::decimal_value(d),
    decreases n + d.len(),
{
    let zeros = Seq::new(n, |i: int| '0');
    let s = zeros + d;
    assert forall|i: int| 0 <= i < s.len() implies crate::strings::is_digit(#[trigger] s[i]) by {
        if i >= n {
            assert(s[i] == d[i - n]);
            assert(crate::strings::is_digit(d[i - n]));
        }
    }
    if d.len() > 0 {
        let t = d.drop_last();
        assert forall|i: int| 0 <= i < t.len() implies crate::strings::is_digit(#[trigger] t[i]) by {
            assert(t[i] == d[i]);
        }
        lemma_zeros_in_front(n, t);
        assert(s.drop_last() =~= zeros + t);
        assert(s.last() == d.last());
    } else if n > 0 {
        lemma_zeros_in_front((n - 1) as nat, d);
        assert(s.drop_last() =~= Seq::new((n - 1) as nat, |i: int| '0') + d);
        assert(s.last() == '0');
    }
}

/// An hour on the 12-hour clock, from 1 to 12, and its half of the day determine the hour.
pub proof fn law_clock_hours_determine_the_hour(hour: u8)
    requires
        hour < 24,
    ensures
        1 <= clock_hour(hour) <= 12,
        hour == clock_hour(hour) % 12 + (if meridiem(hour) == "PM"@ {
            12int
        } else {
            0
        }),
        meridiem(hour) == "AM"@ || meridiem(hour) == "PM"@,
{
    reveal_strlit("AM");
    reveal_strlit("PM");
    assert("AM"@[0] == 'A');
    assert("PM"@[0] == 'P');
}

/// A field of a date or time has two digits that denote its number.
pub proof fn law_fields_have_two_digits(n: u8)
    requires
        n < 100,
    ensures
        two_digits(n).len() == 2,
        crate::strings::all_digits(two_digits(n)),
        crate::strings::decimal_value(two_digits(n)) == n,
{
    let d = crate::strings::decimal(n as nat);
    crate::strings::law_decimal_places(n as nat);
    reveal_with_fuel(crate::strings::decimal, 3);
    let zeros = (two_digits(n).len() - d.len()) as nat;
    assert(two_digits(n) =~= Seq::new(zeros, |i: int| '0') + d);
    lemma_zeros_in_front(zeros, d);
}

/// A year has at least four characters, a minus sign among them before the common era, and its digits
/// denote it.
pub proof fn law_years_have_four_characters(y: int)
    ensures
        year_text(y).len() >= 4,
        magnitude(y) >= 10_000 ==> year_text(y)[0] != '0',
        ({
            let digits = if y < 0 {
                year_text(y).skip(1)
            } else {
                year_text(y)
            };
            &&& y < 0 ==> year_text(y)[0] == '-'
            &&& crate::strings::all_digits(digits)
            &&& crate::strings::decimal_value(digits) == magnitude(y)
        }),
{
    let m = magnitude(y);
    let d = crate::strings::decimal(m);
    crate::strings::law_decimal_places(m);
    let width: nat = if y < 0 {
        3
    } else {
        4
    };
    let digits = crate::strings::zero_padded(d, width);
    let zeros = (digits.len() - d.len()) as nat;
    assert(digits =~= Seq::new(zeros, |i: int| '0') + d);
    lemma_zeros_in_front(zeros, d);
    if y < 0 {
        assert(year_text(y).skip(1) =~= digits);
    } else if m >= 10_000 {
        reveal_with_fuel(crate::strings::decimal, 6);
        assert(zeros == 0);
    }
}

} // verus!
