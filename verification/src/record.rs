//! The record model: one customer observation, its calendar data, and the
//! derivation of the fixed-order numeric feature vector that the clustering
//! engine consumes.
//!
//! Real-valued fields are fixed-point: a stored value `v` stands for the real
//! number `v / SCALE`. All derived features are non-negative and bounded by
//! `FEATURE_MAX`, which the clustering engine relies on to rule out overflow.

use vstd::prelude::*;

verus! {

/// Fixed-point sub-units per whole unit: stored values are thousandths.
pub const SCALE: u64 = 1000;

/// Upper bound on each monetary fixed-point field (income, spends, recency).
pub const MONEY_MAX: u64 = 1_000_000_000_000_000;

/// Upper bound on each count field (purchases, children at home).
pub const COUNT_MAX: u32 = 1_000_000;

/// Every derived feature is at most this fixed-point value.
pub const FEATURE_MAX: u64 = 10_000_000_000_000_000;

/// The fixed reference year used for the age feature.
pub const REF_YEAR: u32 = 2025;

/// The fixed reference date (year, month, day) used for the tenure feature.
pub const REF_MONTH: u32 = 4;

/// Day of month of the fixed reference date.
pub const REF_DAY: u32 = 1;

/// Number of entries of every derived feature vector.
pub const FEATURE_DIM: usize = 9;

/// Error of the record model: a textual date does not belong to the
/// day-month-year grammar or names no real calendar date.
#[derive(Clone, Copy, Debug, PartialEq, Eq, Structural)]
pub enum DataError {
    MalformedDate,
}

pub open spec fn spec_leap_year(y: int) -> bool {
    (y % 4 == 0 && y % 100 != 0) || y % 400 == 0
}

pub open spec fn spec_days_in_month(y: int, m: int) -> int {
    if m == 2 {
        if spec_leap_year(y) {
            29
        } else {
            28
        }
    } else if m == 4 || m == 6 || m == 9 || m == 11 {
        30
    } else {
        31
    }
}

/// A calendar date, held as plain year, month and day numbers.
#[derive(Clone, Copy, Debug, PartialEq, Eq, Structural)]
pub struct Date {
    pub year: u32,
    pub month: u32,
    pub day: u32,
}

impl Date {
    /// A well-formed date is a real date of the proleptic Gregorian calendar
    /// with at most four year digits.
    pub open spec fn wf(&self) -> bool {
        &&& self.year <= 9999
        &&& 1 <= self.month <= 12
        &&& 1 <= self.day <= spec_days_in_month(self.year as int, self.month as int)
    }

    pub fn is_valid(&self) -> (r: bool)
        ensures
            r == self.wf(),
    {
        if self.year > 9999 || self.month < 1 || self.month > 12 {
            return false;
        }
        let dim: u32 = if self.month == 2 {
            if (self.year % 4 == 0 && self.year % 100 != 0) || self.year % 400 == 0 {
                29
            } else {
                28
            }
        } else if self.month == 4 || self.month == 6 || self.month == 9 || self.month == 11 {
            30
        } else {
            31
        };
        1 <= self.day && self.day <= dim
    }
}

/// The linear position of a calendar date on the day axis, as chrono counts
/// it: the difference `day_number(b) - day_number(a)` is the signed number of
/// whole days from date `a` to date `b`.
pub uninterp spec fn day_number(y: int, m: int, d: int) -> int;

/// Relies on chrono::NaiveDate: `from_ymd_opt` returns `Some` on every
/// calendar-valid Gregorian date, and subtracting two dates yields their
/// signed difference in whole days, a function of the two dates alone.
#[verifier::external_body]
fn days_between(from: &Date, to: &Date) -> (r: i64)
    requires
        from.wf(),
        to.wf(),
    ensures
        r == day_number(to.year as int, to.month as int, to.day as int) - day_number(
            from.year as int,
            from.month as int,
            from.day as int,
        ),
{
    let a = chrono::NaiveDate::from_ymd_opt(from.year as i32, from.month, from.day).unwrap();
    let b = chrono::NaiveDate::from_ymd_opt(to.year as i32, to.month, to.day).unwrap();
    (b - a).num_days()
}

pub open spec fn is_digit(c: char) -> bool {
    '0' as int <= c as int <= '9' as int
}

pub open spec fn digit_val(c: char) -> int {
    c as int - '0' as int
}

/// Decimal value of the digits of `s` at positions `from` (inclusive) to
/// `to` (exclusive), most significant first.
pub open spec fn num_val(s: Seq<char>, from: int, to: int) -> int
    decreases to - from,
{
    if to <= from {
        0
    } else {
        num_val(s, from, to - 1) * 10 + digit_val(s[to - 1])
    }
}

/// `s` has the day-month-year shape with the two dashes at positions `i` and
/// `j`: a one- or two-digit day, a dash, a one- or two-digit month, a dash,
/// and a four-digit year, with nothing before or after.
pub open spec fn date_shape(s: Seq<char>, i: int, j: int) -> bool {
    &&& 1 <= i <= 2
    &&& i + 2 <= j <= i + 3
    &&& s.len() == j + 5
    &&& s[i] == '-'
    &&& s[j] == '-'
    &&& forall|k: int| 0 <= k < s.len() && k != i && k != j ==> is_digit(#[trigger] s[k])
}

pub open spec fn date_fields_match(s: Seq<char>, y: int, m: int, d: int, i: int, j: int) -> bool {
    &&& date_shape(s, i, j)
    &&& d == num_val(s, 0, i)
    &&& m == num_val(s, i + 1, j)
    &&& y == num_val(s, j + 1, j + 5)
}

/// The text `s` is the day-month-year rendering of the date `dt`.
pub open spec fn parses_to(s: Seq<char>, dt: Date) -> bool {
    exists|i: int, j: int|
        date_fields_match(s, dt.year as int, dt.month as int, dt.day as int, i, j)
}

/// The two dash positions of a day-month-year text are forced: every
/// position but the dashes holds a digit, and a dash is no digit.
proof fn lemma_shape_unique(s: Seq<char>, i1: int, j1: int, i2: int, j2: int)
    requires
        date_shape(s, i1, j1),
        date_shape(s, i2, j2),
    ensures
        i1 == i2,
        j1 == j2,
{
    assert(!is_digit('-'));
    if i1 != i2 {
        assert(i1 != j2);
        assert(is_digit(s[i1]));
        assert(false);
    }
    if j1 != j2 {
        assert(j1 != i2);
        assert(is_digit(s[j1]));
        assert(false);
    }
}

proof fn lemma_no_shape_no_parse(s: Seq<char>)
    requires
        forall|i: int, j: int| !date_shape(s, i, j),
    ensures
        !(exists|dt: Date| #[trigger] parses_to(s, dt) && dt.wf()),
{
    if exists|dt: Date| #[trigger] parses_to(s, dt) && dt.wf() {
        let dt = choose|dt: Date| #[trigger] parses_to(s, dt) && dt.wf();
        let (i, j): (int, int) = choose|i: int, j: int|
            date_fields_match(s, dt.year as int, dt.month as int, dt.day as int, i, j);
        assert(date_shape(s, i, j));
    }
}

/// Parse a day-month-year text ("`7-4-2021`", "`04-09-2012`") into a
/// calendar date: a one- or two-digit day, a dash, a one- or two-digit
/// month, a dash, and a four-digit year, naming a real Gregorian date.
/// Returns the malformed-input error on every other string.
pub fn parse_date(s: &str) -> (r: Result<Date, DataError>)
    ensures
        r is Ok <==> exists|dt: Date| #[trigger] parses_to(s@, dt) && dt.wf(),
        r matches Ok(dt) ==> parses_to(s@, dt) && dt.wf(),
{
    let n = s.unicode_len();
    if n < 8 || n > 10 {
        proof {
            assert forall|i: int, j: int| !date_shape(s@, i, j) by {
                if date_shape(s@, i, j) {
                    assert(8 <= s@.len() <= 10);
                }
            }
            lemma_no_shape_no_parse(s@);
        }
        return Err(DataError::MalformedDate);
    }
    let i: usize = if s.get_char(1) == '-' {
        1
    } else if s.get_char(2) == '-' {
        2
    } else {
        proof {
            assert forall|i: int, j: int| !date_shape(s@, i, j) by {
                if date_shape(s@, i, j) {
                    assert(s@[i] == '-' && (i == 1 || i == 2));
                }
            }
            lemma_no_shape_no_parse(s@);
        }
        return Err(DataError::MalformedDate);
    };
    proof {
        assert(!is_digit('-'));
        assert(s@[i as int] == '-');
        if i == 2 {
            assert(s@[1] != '-');
        }
        assert forall|i2: int, j2: int| date_shape(s@, i2, j2) implies i2 == i as int by {
            if i2 != i as int {
                assert(i as int != j2);
                assert(is_digit(s@[i as int]));
            }
        }
    }
    let j: usize = if s.get_char(i + 2) == '-' {
        i + 2
    } else if s.get_char(i + 3) == '-' {
        i + 3
    } else {
        proof {
            assert forall|i2: int, j2: int| !date_shape(s@, i2, j2) by {
                if date_shape(s@, i2, j2) {
                    assert(i2 == i as int);
                    assert(s@[j2] == '-' && (j2 == i + 2 || j2 == i + 3));
                }
            }
            lemma_no_shape_no_parse(s@);
        }
        return Err(DataError::MalformedDate);
    };
    proof {
        assert(s@[j as int] == '-');
        if j == i + 3 {
            assert(s@[i as int + 2] != '-');
        }
        assert forall|i2: int, j2: int| date_shape(s@, i2, j2) implies i2 == i as int && j2
            == j as int by {
            if i2 == i as int && j2 != j as int {
                assert(j as int != i2);
                assert(is_digit(s@[j as int]));
            }
        }
    }
    if n != j + 5 {
        proof {
            assert forall|i2: int, j2: int| !date_shape(s@, i2, j2) by {
                if date_shape(s@, i2, j2) {
                    assert(s@.len() == j2 + 5 && j2 == j as int);
                }
            }
            lemma_no_shape_no_parse(s@);
        }
        return Err(DataError::MalformedDate);
    }
    let mut k: usize = 0;
    while k < n
        invariant
            k <= n,
            n == s@.len(),
            1 <= i <= 2,
            i + 2 <= j <= i + 3,
            n == j + 5,
            s@[i as int] == '-',
            s@[j as int] == '-',
            forall|q: int| 0 <= q < k && q != i as int && q != j as int ==> is_digit(#[trigger] s@[q]),
        decreases n - k,
    {
        if k != i && k != j {
            let v = s.get_char(k) as u32;
            if v < 48 || v > 57 {
                proof {
                    assert(!is_digit('-'));
                    assert(!is_digit(s@[k as int]));
                    assert forall|i2: int, j2: int| !date_shape(s@, i2, j2) by {
                        if date_shape(s@, i2, j2) {
                            if i2 != i as int {
                                assert(i as int != j2);
                                assert(is_digit(s@[i as int]));
                            }
                            if j2 != j as int {
                                assert(j as int != i2);
                                assert(is_digit(s@[j as int]));
                            }
                            assert(is_digit(s@[k as int]));
                        }
                    }
                    lemma_no_shape_no_parse(s@);
                }
                return Err(DataError::MalformedDate);
            }
        }
        k = k + 1;
    }
    let day: u32 = if i == 1 {
        s.get_char(0) as u32 - 48
    } else {
        (s.get_char(0) as u32 - 48) * 10 + (s.get_char(1) as u32 - 48)
    };
    let month: u32 = if j == i + 2 {
        s.get_char(i + 1) as u32 - 48
    } else {
        (s.get_char(i + 1) as u32 - 48) * 10 + (s.get_char(i + 2) as u32 - 48)
    };
    let year: u32 = ((s.get_char(j + 1) as u32 - 48) * 10 + (s.get_char(j + 2) as u32 - 48)) * 10
        * 10 + (s.get_char(j + 3) as u32 - 48) * 10 + (s.get_char(j + 4) as u32 - 48);
    proof {
        assert(num_val(s@, 0, 0) == 0);
        assert(num_val(s@, 0, 1) == digit_val(s@[0]));
        assert(num_val(s@, 0, 2) == digit_val(s@[0]) * 10 + digit_val(s@[1]));
        assert(day == num_val(s@, 0, i as int));
        let m0 = i as int + 1;
        assert(num_val(s@, m0, m0) == 0);
        assert(num_val(s@, m0, m0 + 1) == digit_val(s@[m0]));
        assert(num_val(s@, m0, m0 + 2) == digit_val(s@[m0]) * 10 + digit_val(s@[m0 + 1]));
        assert(month == num_val(s@, m0, j as int));
        let y0 = j as int + 1;
        assert(num_val(s@, y0, y0) == 0);
        assert(num_val(s@, y0, y0 + 1) == digit_val(s@[y0]));
        assert(num_val(s@, y0, y0 + 2) == num_val(s@, y0, y0 + 1) * 10 + digit_val(s@[y0 + 1]));
        assert(num_val(s@, y0, y0 + 3) == num_val(s@, y0, y0 + 2) * 10 + digit_val(s@[y0 + 2]));
        assert(num_val(s@, y0, y0 + 4) == num_val(s@, y0, y0 + 3) * 10 + digit_val(s@[y0 + 3]));
        assert(year == num_val(s@, y0, y0 + 4));
    }
    let dt = Date { year, month, day };
    proof {
        assert(date_shape(s@, i as int, j as int));
        assert(date_fields_match(
            s@,
            dt.year as int,
            dt.month as int,
            dt.day as int,
            i as int,
            j as int,
        ));
        assert(parses_to(s@, dt));
    }
    if dt.is_valid() {
        Ok(dt)
    } else {
        proof {
            assert forall|dt2: Date| #[trigger] parses_to(s@, dt2) implies !dt2.wf() by {
                let (i2, j2): (int, int) = choose|i2: int, j2: int|
                    date_fields_match(
                        s@,
                        dt2.year as int,
                        dt2.month as int,
                        dt2.day as int,
                        i2,
                        j2,
                    );
                lemma_shape_unique(s@, i as int, j as int, i2, j2);
                assert(dt2.year as int == dt.year as int);
                assert(dt2.month as int == dt.month as int);
                assert(dt2.day as int == dt.day as int);
                assert(dt2 == dt);
            }
        }
        Err(DataError::MalformedDate)
    }
}

/// One customer observation. Monetary fields are fixed-point (`SCALE`
/// sub-units per unit); count fields are plain counts.
#[derive(Clone, Debug)]
pub struct Customer {
    pub id: u32,
    pub income: Option<u64>,
    pub education: String,
    pub marital_status: String,
    pub mntwines: u64,
    pub mntfruits: u64,
    pub mntmeatproducts: u64,
    pub mntfishproducts: u64,
    pub mntsweetproducts: u64,
    pub mntgoldprods: u64,
    pub recency: u64,
    pub dt_customer: Date,
    pub num_web_purchases: u32,
    pub num_catalog_purchases: u32,
    pub num_store_purchases: u32,
    pub year_birth: u32,
    pub kidhome: u32,
    pub teenhome: u32,
    pub acceptedcmp1: u32,
    pub acceptedcmp2: u32,
    pub acceptedcmp3: u32,
    pub acceptedcmp4: u32,
    pub acceptedcmp5: u32,
    pub response: u32,
}

pub open spec fn spec_income(c: Customer) -> int {
    match c.income {
        Some(v) => v as int,
        None => 0,
    }
}

pub open spec fn spec_education_score(e: Seq<char>) -> int {
    if e == "PhD"@ {
        3 * SCALE
    } else if e == "Master"@ {
        2 * SCALE
    } else if e == "Graduation"@ {
        1 * SCALE
    } else {
        0
    }
}

pub open spec fn spec_marital_score(m: Seq<char>) -> int {
    if m == "Married"@ {
        1000
    } else if m == "Together"@ {
        800
    } else if m == "Single"@ {
        500
    } else {
        0
    }
}

/// The campaign-accepted code: the five acceptance flags and the response
/// flag are checked in fixed priority order and the first flag set to 1 wins,
/// so a record with several flags set is coded like one with only the
/// highest-priority flag set.
pub open spec fn spec_campaign_code(c: Customer) -> int {
    if c.acceptedcmp1 == 1 {
        1 * SCALE
    } else if c.acceptedcmp2 == 1 {
        2 * SCALE
    } else if c.acceptedcmp3 == 1 {
        3 * SCALE
    } else if c.acceptedcmp4 == 1 {
        4 * SCALE
    } else if c.acceptedcmp5 == 1 {
        5 * SCALE
    } else if c.response == 1 {
        6 * SCALE
    } else {
        0
    }
}

pub open spec fn spec_total_spent(c: Customer) -> int {
    c.mntwines + c.mntfruits + c.mntmeatproducts + c.mntfishproducts + c.mntsweetproducts
        + c.mntgoldprods
}

/// Signed number of days from the enrollment date to the fixed reference
/// date.
pub open spec fn spec_days_enrolled(c: Customer) -> int {
    day_number(REF_YEAR as int, REF_MONTH as int, REF_DAY as int) - day_number(
        c.dt_customer.year as int,
        c.dt_customer.month as int,
        c.dt_customer.day as int,
    )
}

pub open spec fn spec_purchases(c: Customer) -> int {
    c.num_web_purchases + c.num_store_purchases + c.num_catalog_purchases
}

/// Purchase frequency: total purchases per day of tenure, fixed-point, with
/// the day span clamped to at least one day.
pub open spec fn spec_frequency(c: Customer) -> int {
    spec_purchases(c) * SCALE / (if spec_days_enrolled(c) < 1 {
        1
    } else {
        spec_days_enrolled(c)
    })
}

pub open spec fn spec_num_children(c: Customer) -> int {
    (c.kidhome + c.teenhome) * SCALE
}

pub open spec fn spec_age(c: Customer) -> int {
    (REF_YEAR - c.year_birth) * SCALE
}

/// The derived feature vector: the fixed-order sequence of nine fixed-point
/// values that is the only view of a record the clustering engine sees.
pub open spec fn spec_features(c: Customer) -> Seq<u64> {
    seq![
        spec_income(c) as u64,
        spec_education_score(c.education@) as u64,
        spec_marital_score(c.marital_status@) as u64,
        c.recency,
        spec_frequency(c) as u64,
        spec_total_spent(c) as u64,
        spec_num_children(c) as u64,
        spec_campaign_code(c) as u64,
        spec_age(c) as u64,
    ]
}

impl Customer {
    /// Field bounds every record must satisfy before feature derivation:
    /// monetary fields at most `MONEY_MAX`, counts at most `COUNT_MAX`, the
    /// birth year not after the reference year, and a real enrollment date.
    pub open spec fn wf(&self) -> bool {
        &&& match self.income {
            Some(v) => v <= MONEY_MAX,
            None => true,
        }
        &&& self.mntwines <= MONEY_MAX
        &&& self.mntfruits <= MONEY_MAX
        &&& self.mntmeatproducts <= MONEY_MAX
        &&& self.mntfishproducts <= MONEY_MAX
        &&& self.mntsweetproducts <= MONEY_MAX
        &&& self.mntgoldprods <= MONEY_MAX
        &&& self.recency <= MONEY_MAX
        &&& self.num_web_purchases <= COUNT_MAX
        &&& self.num_catalog_purchases <= COUNT_MAX
        &&& self.num_store_purchases <= COUNT_MAX
        &&& self.kidhome <= COUNT_MAX
        &&& self.teenhome <= COUNT_MAX
        &&& self.year_birth <= REF_YEAR
        &&& self.dt_customer.wf()
    }

    pub fn is_well_formed(&self) -> (r: bool)
        ensures
            r == self.wf(),
    {
        let income_ok = match self.income {
            Some(v) => v <= MONEY_MAX,
            None => true,
        };
        income_ok && self.mntwines <= MONEY_MAX && self.mntfruits <= MONEY_MAX
            && self.mntmeatproducts <= MONEY_MAX && self.mntfishproducts <= MONEY_MAX
            && self.mntsweetproducts <= MONEY_MAX && self.mntgoldprods <= MONEY_MAX
            && self.recency <= MONEY_MAX && self.num_web_purchases <= COUNT_MAX
            && self.num_catalog_purchases <= COUNT_MAX && self.num_store_purchases <= COUNT_MAX
            && self.kidhome <= COUNT_MAX && self.teenhome <= COUNT_MAX && self.year_birth
            <= REF_YEAR && self.dt_customer.is_valid()
    }

    /// Education level encoded as an ordinal score: PhD is 3.0, Master 2.0,
    /// Graduation 1.0, and any other string 0.0, in fixed point.
    pub fn education_score(&self) -> (r: u64)
        ensures
            r == spec_education_score(self.education@),
            r <= 3 * SCALE,
    {
        if self.education == "PhD".to_owned() {
            3 * SCALE
        } else if self.education == "Master".to_owned() {
            2 * SCALE
        } else if self.education == "Graduation".to_owned() {
            1 * SCALE
        } else {
            0
        }
    }

    /// Marital status encoded as a score: Married 1.0, Together 0.8, Single
    /// 0.5, any other string 0.0, in fixed point.
    pub fn marital_score(&self) -> (r: u64)
        ensures
            r == spec_marital_score(self.marital_status@),
            r <= SCALE,
    {
        if self.marital_status == "Married".to_owned() {
            1000
        } else if self.marital_status == "Together".to_owned() {
            800
        } else if self.marital_status == "Single".to_owned() {
            500
        } else {
            0
        }
    }

    /// First campaign flag set to 1, in the fixed priority order of the five
    /// acceptance flags and then the response flag, encoded as 1.0 to 6.0;
    /// 0.0 when none is set.
    pub fn campaign_code(&self) -> (r: u64)
        ensures
            r == spec_campaign_code(*self),
            r <= 6 * SCALE,
    {
        if self.acceptedcmp1 == 1 {
            1 * SCALE
        } else if self.acceptedcmp2 == 1 {
            2 * SCALE
        } else if self.acceptedcmp3 == 1 {
            3 * SCALE
        } else if self.acceptedcmp4 == 1 {
            4 * SCALE
        } else if self.acceptedcmp5 == 1 {
            5 * SCALE
        } else if self.response == 1 {
            6 * SCALE
        } else {
            0
        }
    }

    /// Total spending across the six product categories.
    pub fn total_spent(&self) -> (r: u64)
        requires
            self.wf(),
        ensures
            r == spec_total_spent(*self),
            r <= 6 * MONEY_MAX,
    {
        self.mntwines + self.mntfruits + self.mntmeatproducts + self.mntfishproducts
            + self.mntsweetproducts + self.mntgoldprods
    }

    /// The derived feature vector: nine fixed-point values in fixed order
    /// (income, education score, marital score, recency, frequency, total
    /// spend, number of children, campaign code, age), each at most
    /// `FEATURE_MAX`.
    pub fn feature_vector(&self) -> (r: Vec<u64>)
        requires
            self.wf(),
        ensures
            r@.len() == FEATURE_DIM,
            r@ == spec_features(*self),
            forall|j: int| 0 <= j < r@.len() ==> r@[j] <= FEATURE_MAX,
    {
        let income: u64 = match self.income {
            Some(v) => v,
            None => 0,
        };
        let reference = Date { year: REF_YEAR, month: REF_MONTH, day: REF_DAY };
        let days: i64 = days_between(&self.dt_customer, &reference);
        let denom: u64 = if days < 1 {
            1
        } else {
            days as u64
        };
        let purchases: u64 = self.num_web_purchases as u64 + self.num_store_purchases as u64
            + self.num_catalog_purchases as u64;
        let frequency: u64 = (purchases * SCALE) / denom;
        proof {
            vstd::arithmetic::div_mod::lemma_div_nonincreasing(
                (purchases * SCALE) as int,
                denom as int,
            );
        }
        let children: u64 = (self.kidhome as u64 + self.teenhome as u64) * SCALE;
        let age: u64 = ((REF_YEAR - self.year_birth) as u64) * SCALE;
        let mut r: Vec<u64> = Vec::new();
        r.push(income);
        r.push(self.education_score());
        r.push(self.marital_score());
        r.push(self.recency);
        r.push(frequency);
        r.push(self.total_spent());
        r.push(children);
        r.push(self.campaign_code());
        r.push(age);
        proof {
            assert(r@ =~= spec_features(*self));
        }
        r
    }
}

} // verus!
