//! Running aggregates (meters and counters) and decimal formatting.

use vstd::prelude::*;
use vstd::string::StringExecFns;
use num_format::ToFormattedString;

verus! {

/// The decimal digits of `n`, most significant first, without leading zeros.
pub open spec fn decimal_digits(n: nat) -> Seq<char>
    decreases n,
{
    if n < 10 {
        seq![digit_char(n)]
    } else {
        decimal_digits(n / 10).push(digit_char(n % 10))
    }
}

/// The character of one decimal digit.
pub open spec fn digit_char(d: nat) -> char {
    if d == 0 { '0' }
    else if d == 1 { '1' }
    else if d == 2 { '2' }
    else if d == 3 { '3' }
    else if d == 4 { '4' }
    else if d == 5 { '5' }
    else if d == 6 { '6' }
    else if d == 7 { '7' }
    else if d == 8 { '8' }
    else { '9' }
}

/// Exactly three decimal digits of `n % 1000`, with leading zeros.
pub open spec fn three_digits(n: nat) -> Seq<char> {
    seq![digit_char((n / 100) % 10), digit_char((n / 10) % 10), digit_char(n % 10)]
}

/// `n` in decimal with a comma between each group of three digits.
pub open spec fn grouped_nat(n: nat) -> Seq<char>
    decreases n,
{
    if n < 1000 {
        decimal_digits(n)
    } else {
        grouped_nat(n / 1000) + seq![','] + three_digits(n % 1000)
    }
}

/// `n` written the way English writes whole numbers: `-1,234,567`.
pub open spec fn grouped_int(n: int) -> Seq<char> {
    if n < 0 {
        seq!['-'] + grouped_nat((-n) as nat)
    } else {
        grouped_nat(n as nat)
    }
}

/// Relies on num_format's `to_formatted_string` with `Locale::en`, whose
/// separator is `,`, whose grouping is by three digits and whose minus sign
/// is `-`.
#[verifier::external_body]
pub fn tostring(arg: i128) -> (r: String)
    ensures
        r@ == grouped_int(arg as int),
{
    arg.to_formatted_string(&num_format::Locale::en)
}

/// `x` clamped to the range of `i64`.
pub open spec fn clamp_i64(x: int) -> int {
    if x > i64::MAX {
        i64::MAX as int
    } else if x < i64::MIN {
        i64::MIN as int
    } else {
        x
    }
}

/// Adds two `i64`, saturating at the bounds of the type.
pub fn saturating_add_i64(a: i64, b: i64) -> (r: i64)
    ensures
        r == clamp_i64(a + b),
{
    match a.checked_add(b) {
        Some(v) => v,
        None => if b > 0 { i64::MAX } else { i64::MIN },
    }
}

/// The string of one decimal digit.
fn digit_str(d: i128) -> (r: &'static str)
    requires
        0 <= d < 10,
    ensures
        r@ == seq![digit_char(d as nat)],
{
    if d == 0 {
        proof { reveal_strlit("0"); }
        "0"
    } else if d == 1 {
        proof { reveal_strlit("1"); }
        "1"
    } else if d == 2 {
        proof { reveal_strlit("2"); }
        "2"
    } else if d == 3 {
        proof { reveal_strlit("3"); }
        "3"
    } else if d == 4 {
        proof { reveal_strlit("4"); }
        "4"
    } else if d == 5 {
        proof { reveal_strlit("5"); }
        "5"
    } else if d == 6 {
        proof { reveal_strlit("6"); }
        "6"
    } else if d == 7 {
        proof { reveal_strlit("7"); }
        "7"
    } else if d == 8 {
        proof { reveal_strlit("8"); }
        "8"
    } else {
        proof { reveal_strlit("9"); }
        "9"
    }
}

/// Floor division by a positive divisor.
fn floor_div(n: i128, d: i128) -> (r: i128)
    requires
        d > 0,
    ensures
        r == n / d,
        n >= 0 ==> 0 <= r <= n,
        n < 0 ==> n <= r < 0,
{
    proof {
        if n >= 0 {
            assert(0 <= n / d <= n) by (nonlinear_arith)
                requires n >= 0, d > 0;
        } else {
            assert(n <= n / d < 0) by (nonlinear_arith)
                requires n < 0, d > 0;
        }
    }
    match n.checked_div_euclid(d) {
        Some(q) => q,
        None => 0,
    }
}

/// The mean of `count` samples summing to `sum`, in thousandths, rounded
/// half up.
pub open spec fn mean_millis(sum: int, count: int) -> int {
    (2000 * sum + count) / (2 * count)
}

/// How a meter shows its mean: `0` when it holds no sample, else the mean
/// rounded to three decimals (`1,234.500`).
pub open spec fn mean_text(sum: int, count: int) -> Seq<char> {
    if count <= 0 {
        seq!['0']
    } else {
        let m = mean_millis(sum, count);
        grouped_int(m / 1000) + seq!['.'] + three_digits((m % 1000) as nat)
    }
}

/// The ending of the registry name of every meter.
pub open spec fn meter_suffix() -> Seq<char> {
    seq!['_', 'm', 'e', 't', 'e', 'r']
}

/// The ending of the registry name of a counter of completions.
pub open spec fn ticks_suffix() -> Seq<char> {
    seq!['_', 't', 'i', 'c', 'k', 's']
}

/// The ending of the registry name of a counter of dispatches.
pub open spec fn counter_suffix() -> Seq<char> {
    seq!['_', 'c', 'o', 'u', 'n', 't', 'e', 'r']
}

/// Whether `s` ends with `suffix`.
pub open spec fn ends_with(s: Seq<char>, suffix: Seq<char>) -> bool {
    s.len() >= suffix.len() && s.subrange(s.len() - suffix.len(), s.len() as int) == suffix
}

/// A name under which a meter may be mirrored into the registry.
pub open spec fn is_meter_name(s: Seq<char>) -> bool {
    ends_with(s, meter_suffix())
}

/// A name under which a counter may be mirrored into the registry: one that
/// ends in `_ticks` or `_counter`, never in `_meter`.
pub open spec fn is_counter_name(s: Seq<char>) -> bool {
    ends_with(s, seq!['_', 't', 'i', 'c', 'k', 's'])
        || ends_with(s, seq!['_', 'c', 'o', 'u', 'n', 't', 'e', 'r'])
}

/// Relies on metriki_core's `global_registry().meter(name).mark()`, which
/// records one event on the process-wide meter of that name. The registry
/// panics when the name is already held by a metric of another kind; meters
/// and counters are named with different endings, so that never happens.
#[verifier::external_body]
fn mark_registry_meter(name: &str)
    requires
        is_meter_name(name@),
{
    metriki_core::global::global_registry().meter(name).mark();
}

/// Relies on metriki_core's `global_registry().counter(name).inc(1)`, which
/// adds one to the process-wide counter of that name. The registry panics
/// when the name is already held by a metric of another kind; meters and
/// counters are named with different endings, so that never happens.
#[verifier::external_body]
fn inc_registry_counter(name: &str)
    requires
        is_counter_name(name@),
{
    metriki_core::global::global_registry().counter(name).inc(1);
}

/// A running mean: the number of recorded samples and their sum.
pub struct Meter {
    sm: i64,
    co: i64,
    name: Option<String>,
}

impl Meter {
    /// The number of recorded samples.
    pub closed spec fn samples(&self) -> int {
        self.co as int
    }

    /// The sum of the recorded samples.
    pub closed spec fn total(&self) -> int {
        self.sm as int
    }

    /// The name under which updates are mirrored into the registry, if any.
    pub closed spec fn registry_name(&self) -> Option<Seq<char>> {
        match self.name {
            Some(n) => Some(n@),
            None => None,
        }
    }

    pub closed spec fn wf(&self) -> bool {
        &&& self.co >= 0
        &&& self.registry_name() matches Some(n) ==> is_meter_name(n)
    }

    /// The sample count of a well-formed meter lies in `0..=i64::MAX`, and
    /// its sum in the range of `i64`.
    pub proof fn lemma_range(&self)
        requires
            self.wf(),
        ensures
            0 <= self.samples() <= i64::MAX,
            i64::MIN <= self.total() <= i64::MAX,
    {
    }

    pub fn new() -> (r: Self)
        ensures
            r.wf(),
            r.samples() == 0,
            r.total() == 0,
            r.registry_name() is None,
    {
        Meter { sm: 0, co: 0, name: None }
    }

    /// Mirrors every later update into the registry under `base` + `_meter`.
    pub fn set_name(&mut self, base: String)
        requires
            old(self).wf(),
        ensures
            final(self).wf(),
            final(self).samples() == old(self).samples(),
            final(self).total() == old(self).total(),
            final(self).registry_name() == Some(base@ + meter_suffix()),
    {
        proof { reveal_strlit("_meter"); }
        let n = base.concat("_meter");
        proof {
            assert(n@.subrange(n@.len() - 6, n@.len() as int) =~= meter_suffix());
        }
        self.name = Some(n);
    }

    /// Records one sample. The count and the sum saturate at the bounds of
    /// `i64`.
    pub fn inc(&mut self, d: i64)
        requires
            old(self).wf(),
        ensures
            final(self).wf(),
            final(self).samples() == clamp_i64(old(self).samples() + 1),
            final(self).total() == clamp_i64(old(self).total() + d),
            final(self).registry_name() == old(self).registry_name(),
    {
        self.co = saturating_add_i64(self.co, 1);
        self.sm = saturating_add_i64(self.sm, d);
        match &self.name {
            Some(name) => mark_registry_meter(name.as_str()),
            None => {},
        }
    }

    /// The mean of the samples in thousandths, rounded half up, or `None`
    /// with no sample.
    pub fn value(&self) -> (r: Option<i128>)
        requires
            self.wf(),
        ensures
            self.samples() == 0 ==> r is None,
            self.samples() > 0 ==> r is Some && r->0 == mean_millis(self.total(), self.samples()),
            r matches Some(m) ==> -(i64::MAX + 1) * 2001 <= m <= (i64::MAX + 1) * 2001,
    {
        if self.co == 0 {
            return None;
        }
        let count = self.co as i128;
        Some(floor_div(2000 * (self.sm as i128) + count, 2 * count))
    }

    /// The mean of the samples to three decimals, or `0` with no sample.
    pub fn stats(&self) -> (r: String)
        requires
            self.wf(),
        ensures
            r@ == mean_text(self.total(), self.samples()),
    {
        let m = match self.value() {
            None => {
                proof { reveal_strlit("0"); }
                return String::from_str("0");
            },
            Some(m) => m,
        };
        let whole = floor_div(m, 1000);
        proof {
            assert(m - 1000 < whole * 1000 <= m) by (nonlinear_arith)
                requires whole == m / 1000;
        }
        let frac = m - whole * 1000;
        assert(frac == m % 1000);
        let mut text = tostring(whole);
        proof { reveal_strlit("."); }
        text.append(".");
        text.append(digit_str(frac / 100));
        text.append(digit_str((frac / 10) % 10));
        text.append(digit_str(frac % 10));
        assert(text@ =~= mean_text(self.total(), self.samples()));
        text
    }

    /// The number of recorded samples.
    pub fn sample_count(&self) -> (r: i64)
        ensures
            r == self.samples(),
    {
        self.co
    }

    /// The sum of the recorded samples.
    pub fn sum(&self) -> (r: i64)
        ensures
            r == self.total(),
    {
        self.sm
    }
}

/// A monotonic count of events.
pub struct Counter {
    co: i64,
    name: Option<String>,
}

impl Counter {
    /// The number of counted events.
    pub closed spec fn count(&self) -> int {
        self.co as int
    }

    /// The name under which updates are mirrored into the registry, if any.
    pub closed spec fn registry_name(&self) -> Option<Seq<char>> {
        match self.name {
            Some(n) => Some(n@),
            None => None,
        }
    }

    pub closed spec fn wf(&self) -> bool {
        &&& self.co >= 0
        &&& self.registry_name() matches Some(n) ==> is_counter_name(n)
    }

    /// The count of a well-formed counter lies in `0..=i64::MAX`.
    pub proof fn lemma_range(&self)
        requires
            self.wf(),
        ensures
            0 <= self.count() <= i64::MAX,
    {
    }

    pub fn new() -> (r: Self)
        ensures
            r.wf(),
            r.count() == 0,
            r.registry_name() is None,
    {
        Counter { co: 0, name: None }
    }

    /// Mirrors every later update into the registry under `base` + `suffix`,
    /// where `suffix` is `_ticks` or `_counter`.
    pub fn set_name(&mut self, base: String, ticks: bool)
        requires
            old(self).wf(),
        ensures
            final(self).wf(),
            final(self).count() == old(self).count(),
            final(self).registry_name() == Some(
                base@ + if ticks {
                    seq!['_', 't', 'i', 'c', 'k', 's']
                } else {
                    seq!['_', 'c', 'o', 'u', 'n', 't', 'e', 'r']
                },
            ),
    {
        let n = if ticks {
            proof { reveal_strlit("_ticks"); }
            base.concat("_ticks")
        } else {
            proof { reveal_strlit("_counter"); }
            base.concat("_counter")
        };
        proof {
            if ticks {
                assert(n@.subrange(n@.len() - 6, n@.len() as int) =~= seq!['_', 't', 'i', 'c', 'k', 's']);
            } else {
                assert(n@.subrange(n@.len() - 8, n@.len() as int) =~= seq!['_', 'c', 'o', 'u', 'n', 't', 'e', 'r']);
            }
        }
        self.name = Some(n);
    }

    /// Counts one event, saturating at `i64::MAX`.
    pub fn inc(&mut self)
        requires
            old(self).wf(),
        ensures
            final(self).wf(),
            final(self).count() == clamp_i64(old(self).count() + 1),
            final(self).registry_name() == old(self).registry_name(),
    {
        self.co = saturating_add_i64(self.co, 1);
        match &self.name {
            Some(name) => inc_registry_counter(name.as_str()),
            None => {},
        }
    }

    /// The count, in English digit grouping.
    pub fn stats(&self) -> (r: String)
        ensures
            r@ == grouped_int(self.count()),
    {
        tostring(self.co as i128)
    }

    /// The number of counted events.
    pub fn value(&self) -> (r: i64)
        ensures
            r == self.count(),
    {
        self.co
    }
}

} // verus!
