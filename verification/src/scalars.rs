//! Scalar domain values: instants, dates, and validated strings.

use vstd::prelude::*;

verus! {

/// Milliseconds per day; dates are stored as midnight-UTC instants.
pub const MILLIS_PER_DAY: i64 = 86_400_000;

/// An instant in time with millisecond precision, counted from the Unix
/// epoch (negative values lie before it). Its view is that count.
#[derive(Debug, Clone, Copy, PartialEq, Eq, Structural)]
pub struct DateTime {
    millis: i64,
}

impl View for DateTime {
    type V = int;

    closed spec fn view(&self) -> int {
        self.millis as int
    }
}

impl DateTime {
    /// The instant `millis` milliseconds from the Unix epoch.
    pub fn from_millis(millis: i64) -> (r: DateTime)
        ensures
            r@ == millis as int,
    {
        DateTime { millis }
    }

    /// Milliseconds from the Unix epoch.
    pub fn timestamp_millis(&self) -> (r: i64)
        ensures
            r as int == self@,
    {
        self.millis
    }

    /// The later of two instants.
    pub fn later(self, other: DateTime) -> (r: DateTime)
        ensures
            r@ == if self@ >= other@ {
                self@
            } else {
                other@
            },
    {
        if self.millis >= other.millis {
            self
        } else {
            other
        }
    }

    /// Whether this instant is no later than `other`.
    pub fn le(&self, other: &DateTime) -> (r: bool)
        ensures
            r == (self@ <= other@),
    {
        self.millis <= other.millis
    }
}

/// A calendar day, counted in whole days from the Unix epoch
/// (1970-01-01 is day 0; negative values lie before it). Its view is that
/// count. A date carries no time of day: the store keeps it as the
/// midnight-UTC instant that opens the day, and recovers it by
/// truncating an instant back to its day.
#[derive(Debug, Clone, Copy, PartialEq, Eq, Structural)]
pub struct Date {
    days: i64,
}

/// The largest day count whose midnight instant still fits in an instant.
pub const MAX_DAYS: i64 = 106_751_991_167;

impl View for Date {
    type V = int;

    closed spec fn view(&self) -> int {
        self.days as int
    }
}

impl Date {
    /// The day `days` whole days from the Unix epoch.
    pub fn from_days(days: i64) -> (r: Date)
        ensures
            r@ == days as int,
    {
        Date { days }
    }

    /// Whole days from the Unix epoch.
    pub fn days_from_epoch(&self) -> (r: i64)
        ensures
            r as int == self@,
    {
        self.days
    }

    /// The midnight-UTC instant that opens the day: how a date is
    /// stored. The bound keeps the count of milliseconds representable.
    pub fn to_instant(&self) -> (r: DateTime)
        requires
            -MAX_DAYS <= self@ <= MAX_DAYS,
        ensures
            r@ == self@ * MILLIS_PER_DAY,
    {
        proof {
            assert(self@ * MILLIS_PER_DAY <= MAX_DAYS as int * MILLIS_PER_DAY
                && -(MAX_DAYS as int) * MILLIS_PER_DAY <= self@ * MILLIS_PER_DAY) by (nonlinear_arith)
                requires
                    -MAX_DAYS <= self@ <= MAX_DAYS,
                    MILLIS_PER_DAY == 86_400_000,
                    MAX_DAYS == 106_751_991_167i64,
            ;
        }
        DateTime::from_millis(self.days * MILLIS_PER_DAY)
    }
}

impl DateTime {
    /// The day this instant falls in: the date a stored midnight instant
    /// recovers to. The time of day is truncated away, by design.
    pub fn to_date(&self) -> (r: Date)
        ensures
            r@ == self@ / (MILLIS_PER_DAY as int),
    {
        let m = self.timestamp_millis();
        if m >= 0 {
            let q = (m as u64) / 86_400_000u64;
            proof {
                assert(q as int == self@ / (MILLIS_PER_DAY as int));
                assert(q <= 106_751_991_167);
            }
            Date { days: q as i64 }
        } else {
            let u = (-(m + 1)) as u64;
            let uq = u / 86_400_000u64;
            let ur = u % 86_400_000u64;
            proof {
                vstd::arithmetic::div_mod::lemma_fundamental_div_mod(u as int, 86_400_000int);
                assert(m as int == (-(uq as int) - 1) * 86_400_000int + (86_400_000int - ur - 1))
                    by (nonlinear_arith)
                    requires
                        u as int == (-(m as int)) - 1,
                        u as int == 86_400_000int * (uq as int) + ur as int,
                ;
                vstd::arithmetic::div_mod::lemma_fundamental_div_mod_converse_div(
                    m as int,
                    86_400_000int,
                    -(uq as int) - 1,
                    86_400_000int - ur - 1,
                );
                assert(uq <= 106_751_991_167);
            }
            Date { days: -(uq as i64) - 1 }
        }
    }
}

/// Storing a date and truncating it back recovers the date: the day
/// round trip is exact, though any time of day an instant carried is
/// lost.
pub proof fn lemma_date_round_trip(days: int)
    ensures
        (days * MILLIS_PER_DAY) / (MILLIS_PER_DAY as int) == days,
{
    vstd::arithmetic::div_mod::lemma_div_multiples_vanish(days, MILLIS_PER_DAY as int);
}

/// Whether `c` is an ASCII lowercase letter.
pub open spec fn is_lower(c: char) -> bool {
    'a' <= c && c <= 'z'
}

/// Whether `c` is an ASCII digit.
pub open spec fn is_digit(c: char) -> bool {
    '0' <= c && c <= '9'
}

/// A handle is 1 to 32 characters, starts with a lowercase letter, and
/// holds only lowercase letters, digits, `-` and `_`.
pub open spec fn valid_handle(s: Seq<char>) -> bool {
    &&& 1 <= s.len() <= 32
    &&& is_lower(s[0])
    &&& forall|i: int|
        0 <= i < s.len() ==> is_lower(#[trigger] s[i]) || is_digit(s[i]) || s[i] == '-' || s[i]
            == '_'
}

/// Whether `c` may stand in an email address: any ASCII graphic character,
/// so neither whitespace nor a control character.
pub open spec fn is_email_char(c: char) -> bool {
    '!' <= c && c <= '~'
}

/// An email-shaped string: a non-empty local part, one `@`, and a domain
/// that holds a `.` neither at its start nor at its end; every character
/// is an ASCII graphic character, and `@` occurs exactly once.
pub open spec fn valid_email(s: Seq<char>) -> bool {
    &&& s.len() > 0
    &&& s[s.len() - 1] != '.'
    &&& exists|at: int|
        {
            &&& 0 < at < s.len()
            &&& #[trigger] s[at] == '@'
            &&& forall|i: int| 0 <= i < s.len() && i != at ==> #[trigger] s[i] != '@'
            &&& forall|i: int| 0 <= i < s.len() ==> is_email_char(#[trigger] s[i])
            &&& exists|dot: int| at + 1 < dot < s.len() && #[trigger] s[dot] == '.'
        }
}

/// A phone number in international form: `+`, then 7 to 15 digits, the
/// first of which is not `0`.
pub open spec fn valid_phone(s: Seq<char>) -> bool {
    &&& 8 <= s.len() <= 16
    &&& s[0] == '+'
    &&& s[1] != '0'
    &&& forall|i: int| 1 <= i < s.len() ==> is_digit(#[trigger] s[i])
}

/// A validated handle string (see [`valid_handle`]). Its view is the
/// character sequence.
#[derive(Debug, Clone)]
pub struct Handle {
    value: String,
}

impl View for Handle {
    type V = Seq<char>;

    closed spec fn view(&self) -> Seq<char> {
        self.value@
    }
}

impl Handle {
    /// An identical copy.
    pub fn duplicate(&self) -> (r: Handle)
        ensures
            r == *self,
    {
        Handle { value: self.value.clone() }
    }

    /// The underlying string, consuming the value.
    pub fn into_string(self) -> (r: String)
        ensures
            r@ == self@,
    {
        self.value
    }

    /// Accepts `value` as a handle exactly when it is valid.
    pub fn parse(value: String) -> (r: Option<Handle>)
        ensures
            r is Some <==> valid_handle(value@),
            r is Some ==> r->0@ == value@,
    {
        if check_handle(value.as_str()) {
            Some(Handle { value })
        } else {
            None
        }
    }

    /// The underlying string.
    pub fn as_str(&self) -> (r: &str)
        ensures
            r@ == self@,
    {
        self.value.as_str()
    }
}

/// A validated email-shaped string (see [`valid_email`]). Its view is the
/// character sequence.
#[derive(Debug, Clone)]
pub struct Email {
    value: String,
}

impl View for Email {
    type V = Seq<char>;

    closed spec fn view(&self) -> Seq<char> {
        self.value@
    }
}

impl Email {
    /// An identical copy.
    pub fn duplicate(&self) -> (r: Email)
        ensures
            r == *self,
    {
        Email { value: self.value.clone() }
    }

    /// The underlying string, consuming the value.
    pub fn into_string(self) -> (r: String)
        ensures
            r@ == self@,
    {
        self.value
    }

    /// Accepts `value` as an email address exactly when it is valid.
    pub fn parse(value: String) -> (r: Option<Email>)
        ensures
            r is Some <==> valid_email(value@),
            r is Some ==> r->0@ == value@,
    {
        if check_email(value.as_str()) {
            Some(Email { value })
        } else {
            None
        }
    }

    /// The underlying string.
    pub fn as_str(&self) -> (r: &str)
        ensures
            r@ == self@,
    {
        self.value.as_str()
    }
}

/// A validated phone string (see [`valid_phone`]). Its view is the
/// character sequence.
#[derive(Debug, Clone)]
pub struct Phone {
    value: String,
}

impl View for Phone {
    type V = Seq<char>;

    closed spec fn view(&self) -> Seq<char> {
        self.value@
    }
}

impl Phone {
    /// An identical copy.
    pub fn duplicate(&self) -> (r: Phone)
        ensures
            r == *self,
    {
        Phone { value: self.value.clone() }
    }

    /// The underlying string, consuming the value.
    pub fn into_string(self) -> (r: String)
        ensures
            r@ == self@,
    {
        self.value
    }

    /// Accepts `value` as a phone number exactly when it is valid.
    pub fn parse(value: String) -> (r: Option<Phone>)
        ensures
            r is Some <==> valid_phone(value@),
            r is Some ==> r->0@ == value@,
    {
        if check_phone(value.as_str()) {
            Some(Phone { value })
        } else {
            None
        }
    }

    /// The underlying string.
    pub fn as_str(&self) -> (r: &str)
        ensures
            r@ == self@,
    {
        self.value.as_str()
    }
}

/// Whether two string slices hold the same characters.
pub fn str_eq(a: &str, b: &str) -> (r: bool)
    ensures
        r == (a@ == b@),
{
    let alen = a.unicode_len();
    let blen = b.unicode_len();
    if alen != blen {
        proof {
            assert(a@ != b@);
        }
        return false;
    }
    let mut i: usize = 0;
    while i < alen
        invariant
            0 <= i <= alen,
            alen == a@.len(),
            alen == b@.len(),
            forall|j: int| 0 <= j < i ==> a@[j] == b@[j],
        decreases alen - i,
    {
        if a.get_char(i) != b.get_char(i) {
            return false;
        }
        i += 1;
    }
    proof {
        assert(a@ =~= b@);
    }
    true
}

/// Checks [`valid_handle`] character by character.
fn check_handle(s: &str) -> (r: bool)
    ensures
        r == valid_handle(s@),
{
    let len = s.unicode_len();
    if len < 1 || len > 32 {
        return false;
    }
    if !{
        let c = s.get_char(0);
        'a' <= c && c <= 'z'
    } {
        return false;
    }
    let mut i: usize = 0;
    while i < len
        invariant
            0 <= i <= len,
            len == s@.len(),
            forall|j: int|
                0 <= j < i ==> is_lower(#[trigger] s@[j]) || is_digit(s@[j]) || s@[j] == '-'
                    || s@[j] == '_',
        decreases len - i,
    {
        let c = s.get_char(i);
        let ok = ('a' <= c && c <= 'z') || ('0' <= c && c <= '9') || c == '-' || c == '_';
        if !ok {
            return false;
        }
        i += 1;
    }
    true
}

/// Checks [`valid_email`] character by character: records where `@`
/// stands, refuses a second `@` or a non-graphic character, and looks for
/// an inner `.` after the `@`.
fn check_email(s: &str) -> (r: bool)
    ensures
        r == valid_email(s@),
{
    let len = s.unicode_len();
    let mut i: usize = 0;
    let mut at: usize = 0;
    let mut seen_at: bool = false;
    let mut seen_dot: bool = false;
    while i < len
        invariant
            0 <= i <= len,
            len == s@.len(),
            seen_at ==> 0 <= at < i && s@[at as int] == '@',
            seen_at ==> forall|j: int| 0 <= j < i && j != at ==> #[trigger] s@[j] != '@',
            !seen_at ==> forall|j: int| 0 <= j < i ==> #[trigger] s@[j] != '@',
            forall|j: int| 0 <= j < i ==> is_email_char(#[trigger] s@[j]),
            seen_dot ==> seen_at,
            seen_dot ==> exists|d: int| at + 1 < d < i && #[trigger] s@[d] == '.',
            !seen_dot ==> forall|d: int|
                seen_at && at + 1 < d < i ==> #[trigger] s@[d] != '.',
        decreases len - i,
    {
        let c = s.get_char(i);
        if !('!' <= c && c <= '~') {
            return false;
        }
        if c == '@' {
            if seen_at {
                return false;
            }
            seen_at = true;
            at = i;
        } else if c == '.' && seen_at && i > at + 1 {
            seen_dot = true;
        }
        i += 1;
    }
    if !seen_at {
        return false;
    }
    let last = s.get_char(len - 1);
    let r = at > 0 && seen_dot && last != '.';
    proof {
        if r {
            assert(valid_email(s@));
        } else if valid_email(s@) {
            let w: int = choose|w: int|
                {
                    &&& 0 < w < s@.len()
                    &&& #[trigger] s@[w] == '@'
                    &&& forall|i: int| 0 <= i < s@.len() && i != w ==> #[trigger] s@[i] != '@'
                    &&& forall|i: int| 0 <= i < s@.len() ==> is_email_char(#[trigger] s@[i])
                    &&& exists|dot: int| w + 1 < dot < s@.len() && #[trigger] s@[dot] == '.'
                };
            assert(s@[at as int] == '@');
            assert(w == at);
            assert(false);
        }
    }
    r
}

/// Checks [`valid_phone`] character by character.
fn check_phone(s: &str) -> (r: bool)
    ensures
        r == valid_phone(s@),
{
    let len = s.unicode_len();
    if len < 8 || len > 16 {
        return false;
    }
    if s.get_char(0) != '+' {
        return false;
    }
    if s.get_char(1) == '0' {
        return false;
    }
    let mut i: usize = 1;
    while i < len
        invariant
            1 <= i <= len,
            len == s@.len(),
            forall|j: int| 1 <= j < i ==> is_digit(#[trigger] s@[j]),
        decreases len - i,
    {
        let c = s.get_char(i);
        if !('0' <= c && c <= '9') {
            return false;
        }
        i += 1;
    }
    true
}

} // verus!
