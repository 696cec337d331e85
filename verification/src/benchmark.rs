use vstd::prelude::*;
use std::collections::VecDeque;

verus! {

/// A duration in the unit that reads best: microseconds up to ten
/// milliseconds, milliseconds up to ten seconds, seconds beyond.
#[derive(Clone, Copy, PartialEq, Eq, Debug)]
pub enum Time {
    Second(u32),
    Millisecond(u32),
    Microsecond(u32),
}

/// The unit and count that `from_micros` gives for `micros`.
pub open spec fn time_of(micros: u128) -> Time {
    if micros <= 10_000 {
        Time::Microsecond(micros as u32)
    } else if micros <= 10_000_000 {
        Time::Millisecond((micros / 1_000) as u32)
    } else {
        Time::Second((micros / 1_000_000) as u32)
    }
}

impl Time {
    /// Chooses the unit for a duration of `micros` microseconds, rounding
    /// down; the count is cut to 32 bits as a cast does.
    pub fn from_micros(micros: u128) -> (r: Self)
        ensures
            micros <= 10_000 ==> r == Time::Microsecond(micros as u32),
            10_000 < micros <= 10_000_000 ==> r == Time::Millisecond((micros / 1_000) as u32),
            10_000_000 < micros ==> r == Time::Second((micros / 1_000_000) as u32),
            r == time_of(micros),
    {
        if micros <= 10_000 {
            Time::Microsecond(micros as u32)
        } else if micros <= 10_000_000 {
            Time::Millisecond((micros / 1_000) as u32)
        } else {
            Time::Second((micros / 1_000_000) as u32)
        }
    }
}

/// The decimal digit character for `d < 10`.
pub open spec fn digit_char(d: int) -> char {
    if d == 0 { '0' }
    else if d == 1 { '1' }
    else if d == 2 { '2' }
    else if d == 3 { '3' }
    else if d == 4 { '4' }
    else if d == 5 { '5' }
    else if d == 6 { '6' }
    else if d == 7 { '7' }
    else if d == 8 { '8' }
    else { '9' }
}

/// The decimal notation of `n`, without leading zeros.
pub open spec fn decimal(n: nat) -> Seq<char>
    decreases n,
{
    if n < 10 {
        seq![digit_char(n as int)]
    } else {
        decimal(n / 10).push(digit_char((n % 10) as int))
    }
}

/// `s` right-aligned in a field of `width` characters, padded with spaces.
pub open spec fn right_aligned(s: Seq<char>, width: nat) -> Seq<char> {
    if s.len() < width {
        Seq::new((width - s.len()) as nat, |i: int| ' ') + s
    } else {
        s
    }
}

/// How a `Time` reads: its count right-aligned in four places, then its
/// unit in two.
pub open spec fn time_text(t: Time) -> Seq<char> {
    match t {
        Time::Second(n) => right_aligned(decimal(n as nat), 4) + seq!['s', ' '],
        Time::Millisecond(n) => right_aligned(decimal(n as nat), 4) + seq!['m', 's'],
        Time::Microsecond(n) => right_aligned(decimal(n as nat), 4) + seq!['\u{b5}', 's'],
    }
}

fn digit_str(d: u32) -> (r: &'static str)
    requires
        d < 10,
    ensures
        r@ == seq![digit_char(d as int)],
{
    proof {
        reveal_strlit("0");
        reveal_strlit("1");
        reveal_strlit("2");
        reveal_strlit("3");
        reveal_strlit("4");
        reveal_strlit("5");
        reveal_strlit("6");
        reveal_strlit("7");
        reveal_strlit("8");
        reveal_strlit("9");
    }
    if d == 0 { "0" }
    else if d == 1 { "1" }
    else if d == 2 { "2" }
    else if d == 3 { "3" }
    else if d == 4 { "4" }
    else if d == 5 { "5" }
    else if d == 6 { "6" }
    else if d == 7 { "7" }
    else if d == 8 { "8" }
    else { "9" }
}

fn digit_count(n: u32) -> (r: usize)
    ensures
        r == decimal(n as nat).len(),
        1 <= r <= n + 1,
    decreases n,
{
    if n < 10 {
        1
    } else {
        1 + digit_count(n / 10)
    }
}

/// Appends the decimal notation of `n` to `s`.
pub(crate) fn append_decimal(s: &mut String, n: u64)
    ensures
        final(s)@ == old(s)@ + decimal(n as nat),
    decreases n,
{
    if n >= 10 {
        append_decimal(s, n / 10);
    }
    s.append(digit_str((n % 10) as u32));
    proof {
        assert(old(s)@ + decimal(n as nat) =~= s@);
    }
}

impl Time {
    /// The text of this duration: the count right-aligned in four places,
    /// then `s `, `ms` or `\u{b5}s`.
    pub fn to_string(&self) -> (r: String)
        ensures
            r@ == time_text(*self),
    {
        let n: u32 = match *self {
            Time::Second(n) => n,
            Time::Millisecond(n) => n,
            Time::Microsecond(n) => n,
        };
        let mut s = String::new();
        let len = digit_count(n);
        let mut k: usize = len;
        while k < 4
            invariant
                len <= k,
                k <= 4 || k == len,
                len == decimal(n as nat).len(),
                s@ == Seq::new((k - len) as nat, |i: int| ' '),
            decreases 4 - k,
        {
            s.append(" ");
            k = k + 1;
            proof {
                reveal_strlit(" ");
                assert(s@ =~= Seq::new((k - len) as nat, |i: int| ' '));
            }
        }
        let ghost pad = s@;
        append_decimal(&mut s, n as u64);
        proof {
            assert(pad + decimal(n as nat) =~= right_aligned(decimal(n as nat), 4));
        }
        let unit = match *self {
            Time::Second(_) => "s ",
            Time::Millisecond(_) => "ms",
            Time::Microsecond(_) => "\u{b5}s",
        };
        proof {
            reveal_strlit("s ");
            reveal_strlit("ms");
            reveal_strlit("\u{b5}s");
        }
        s.append(unit);
        s
    }
}

/// The sum of a run of durations.
pub open spec fn total(s: Seq<u128>) -> int
    decreases s.len(),
{
    if s.len() == 0 {
        0
    } else {
        total(s.drop_last()) + s.last()
    }
}

proof fn lemma_total_prefix(s: Seq<u128>, i: int)
    requires
        0 <= i < s.len(),
    ensures
        total(s.take(i + 1)) == total(s.take(i)) + s[i],
{
    assert(s.take(i + 1).drop_last() =~= s.take(i));
}

proof fn lemma_total_monotone(s: Seq<u128>, i: int)
    requires
        0 <= i <= s.len(),
    ensures
        0 <= total(s.take(i)) <= total(s),
    decreases s.len() - i,
{
    if i < s.len() {
        lemma_total_prefix(s, i);
        lemma_total_monotone(s, i + 1);
        lemma_total_nonneg(s.take(i));
    } else {
        assert(s.take(i) =~= s);
        lemma_total_nonneg(s);
    }
}

proof fn lemma_total_nonneg(s: Seq<u128>)
    ensures
        total(s) >= 0,
    decreases s.len(),
{
    if s.len() > 0 {
        lemma_total_nonneg(s.drop_last());
    }
}

/// The window after recording `micros` into `s` with room for `capacity`:
/// a full window first drops its oldest sample.
pub open spec fn recorded(s: Seq<u128>, capacity: usize, micros: u128) -> Seq<u128> {
    if s.len() == capacity && s.len() > 0 {
        s.drop_first().push(micros)
    } else {
        s.push(micros)
    }
}

/// Recording into a window of positive capacity that is not over it keeps
/// it within capacity: a window with room grows by one, a full one keeps
/// exactly `capacity` samples. It keeps the newest samples in order, so a
/// full window loses only its oldest, and puts the new one last.
pub proof fn law_record_keeps_window(s: Seq<u128>, capacity: usize, micros: u128)
    requires
        0 < capacity,
        s.len() <= capacity,
    ensures
        recorded(s, capacity, micros).len() <= capacity,
        s.len() < capacity ==> recorded(s, capacity, micros).len() == s.len() + 1,
        s.len() == capacity ==> recorded(s, capacity, micros).len() == capacity,
        s.len() == capacity ==> forall|i: int|
            0 <= i < capacity - 1 ==> #[trigger] recorded(s, capacity, micros)[i] == s[i + 1],
        recorded(s, capacity, micros).last() == micros,
        recorded(s, capacity, micros).drop_last() == s.subrange(
            s.len() + 1 - recorded(s, capacity, micros).len(),
            s.len() as int,
        ),
{
    let r = recorded(s, capacity, micros);
    if s.len() == capacity {
        assert(r.drop_last() =~= s.subrange(1, s.len() as int));
    } else {
        assert(r.drop_last() =~= s.subrange(0, s.len() as int));
    }
}

/// A window that is not exactly full, or that has no capacity, only grows:
/// the new sample is added after all the old ones, none dropped.
pub proof fn law_record_grows_unless_full(s: Seq<u128>, capacity: usize, micros: u128)
    requires
        s.len() != capacity || capacity == 0,
    ensures
        recorded(s, capacity, micros).len() == s.len() + 1,
        recorded(s, capacity, micros).last() == micros,
        forall|i: int| 0 <= i < s.len() ==> #[trigger] recorded(s, capacity, micros)[i] == s[i],
{
}

/// The durations recorded for one benchmark item, in microseconds, oldest
/// first. Once `capacity` of them are held, recording one drops the
/// oldest.
pub struct Samples {
    capacity: usize,
    micros: VecDeque<u128>,
}

impl View for Samples {
    type V = Seq<u128>;

    closed spec fn view(&self) -> Seq<u128> {
        self.micros@
    }
}

impl Samples {
    pub closed spec fn spec_capacity(self) -> usize {
        self.capacity
    }

    /// No samples yet, room for `capacity`.
    pub fn new(capacity: usize) -> (r: Self)
        ensures
            r@ == Seq::<u128>::empty(),
            r.spec_capacity() == capacity,
    {
        Samples { capacity, micros: VecDeque::new() }
    }

    /// Forgets every sample.
    pub fn clear(&mut self)
        ensures
            final(self)@ == Seq::<u128>::empty(),
            final(self).spec_capacity() == old(self).spec_capacity(),
    {
        self.micros.clear();
    }

    /// Records a duration of `micros` microseconds, dropping the oldest
    /// first when the window is full.
    pub fn record(&mut self, micros: u128)
        ensures
            final(self).spec_capacity() == old(self).spec_capacity(),
            final(self)@ == recorded(old(self)@, old(self).spec_capacity(), micros),
    {
        if self.micros.len() == self.capacity {
            let _ = self.micros.pop_front();
        }
        self.micros.push_back(micros);
    }

    /// The last duration recorded, in its unit.
    pub fn last_time(&self) -> (r: Option<Time>)
        ensures
            r == if self@.len() == 0 {
                None
            } else {
                Some(time_of(self@.last()))
            },
    {
        let n = self.micros.len();
        if n == 0 {
            None
        } else {
            Some(Time::from_micros(self.micros[n - 1]))
        }
    }

    /// The sum of the recorded durations, if it fits in 128 bits.
    pub fn total_micros(&self) -> (r: Option<u128>)
        ensures
            r == if total(self@) <= u128::MAX {
                Some(total(self@) as u128)
            } else {
                None
            },
    {
        let n = self.micros.len();
        let mut sum: u128 = 0;
        let mut i: usize = 0;
        while i < n
            invariant
                n == self@.len(),
                i <= n,
                sum == total(self@.take(i as int)),
            decreases n - i,
        {
            proof {
                lemma_total_prefix(self@, i as int);
                lemma_total_monotone(self@, i as int + 1);
            }
            match sum.checked_add(self.micros[i]) {
                Some(next) => {
                    sum = next;
                },
                None => {
                    proof {
                        lemma_total_monotone(self@, i as int + 1);
                    }
                    return None;
                },
            }
            i = i + 1;
        }
        proof {
            assert(self@.take(n as int) =~= self@);
        }
        Some(sum)
    }

    /// The mean of the recorded durations, rounded down, in its unit.
    pub fn average_time(&self) -> (r: Option<Time>)
        requires
            total(self@) <= u128::MAX,
        ensures
            r == if self@.len() == 0 {
                None
            } else {
                Some(time_of((total(self@) / self@.len() as int) as u128))
            },
    {
        let n = self.micros.len();
        if n == 0 {
            return None;
        }
        let sum = match self.total_micros() {
            Some(sum) => sum,
            None => unreached(),
        };
        proof {
            lemma_total_nonneg(self@);
            assert(sum as int == total(self@));
            assert((sum / (n as u128)) as int == total(self@) / self@.len() as int);
        }
        Some(Time::from_micros(sum / (n as u128)))
    }
}

} // verus!
