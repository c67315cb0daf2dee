use vstd::prelude::*;
use vstd::string::StringExecFns;
use crate::backend::{decimal, digit};
use crate::text::{chars_of, same_text};

verus! {

/// The state of the counter demonstration: a value between zero and a
/// maximum, a line of status text, and whether the user has asked to quit.
#[derive(Debug, Clone)]
pub struct Counter {
    counter: i32,
    max_value: i32,
    should_quit: bool,
    status_message: String,
}

/// The state of the counter as mathematical values.
pub struct CounterView {
    pub counter: int,
    pub max_value: int,
    pub should_quit: bool,
    pub status_message: Seq<char>,
}

/// The status line that reports the value and the maximum.
pub open spec fn count_message(counter: int, max_value: int) -> Seq<char> {
    "Counter: "@ + decimal(counter as nat) + seq!['/'] + decimal(max_value as nat)
}

/// The state after a key: `q` and `Escape` quit, `j` and `ArrowDown` count
/// up to the maximum, `k` and `ArrowUp` count down to zero, `r` resets, and
/// every other key leaves the state as it is.
pub open spec fn after_key(s: CounterView, key: Seq<char>) -> CounterView {
    if key == "q"@ || key == "Escape"@ {
        CounterView { should_quit: true, ..s }
    } else if key == "j"@ || key == "ArrowDown"@ {
        let c = if s.counter < s.max_value {
            s.counter + 1
        } else {
            s.counter
        };
        CounterView { counter: c, status_message: count_message(c, s.max_value), ..s }
    } else if key == "k"@ || key == "ArrowUp"@ {
        let c = if s.counter > 0 {
            s.counter - 1
        } else {
            s.counter
        };
        CounterView { counter: c, status_message: count_message(c, s.max_value), ..s }
    } else if key == "r"@ {
        CounterView { counter: 0, status_message: "Counter reset to 0"@, ..s }
    } else {
        s
    }
}

/// The share of the maximum that the value has reached, in percent.
pub open spec fn percent_of(counter: int, max_value: int) -> int {
    if max_value > 0 {
        let p = counter * 100 / max_value;
        if p < 0 {
            0
        } else if p > 100 {
            100
        } else {
            p
        }
    } else {
        0
    }
}

fn digit_of(d: u32) -> (c: char)
    requires
        d < 10,
    ensures
        c == digit(d as nat),
{
    let b: u8 = d as u8;
    (48u8 + b) as char
}

/// Appends `n` in decimal to `s`.
pub fn push_decimal(s: &mut String, n: u32)
    ensures
        final(s)@ == old(s)@ + decimal(n as nat),
{
    let ghost start = s@;
    let mut low: Vec<char> = Vec::new();
    low.push(digit_of(n % 10));
    let mut v: u32 = n / 10;
    assert(low@.reverse() =~= seq![digit((n % 10) as nat)]);
    assert(decimal(n as nat) =~= (if v > 0 {
        decimal(v as nat)
    } else {
        Seq::empty()
    }) + low@.reverse());
    while v > 0
        invariant
            low@.len() > 0,
            decimal(n as nat) == (if v > 0 {
                decimal(v as nat)
            } else {
                Seq::empty()
            }) + low@.reverse(),
        decreases v,
    {
        let ghost before = low@;
        low.push(digit_of(v % 10));
        assert(low@.reverse() =~= seq![digit((v % 10) as nat)] + before.reverse());
        v = v / 10;
        assert(decimal(n as nat) =~= (if v > 0 {
            decimal(v as nat)
        } else {
            Seq::empty()
        }) + low@.reverse());
    }
    assert(decimal(n as nat) =~= low@.reverse());
    let mut k: usize = low.len();
    assert(s@ =~= start + low@.reverse().subrange(0, 0));
    while k > 0
        invariant
            k <= low@.len(),
            s@ == start + low@.reverse().subrange(0, low@.len() - k),
        decreases k,
    {
        k -= 1;
        s.push(low[k]);
        assert(s@ =~= start + low@.reverse().subrange(0, low@.len() - k));
    }
    assert(low@.reverse().subrange(0, low@.len() as int) =~= low@.reverse());
}

/// Whether the key is called `name`.
fn key_is(key: &Vec<char>, name: &str) -> (r: bool)
    ensures
        r == (key@ == name@),
{
    let other = chars_of(name);
    same_text(key, &other)
}

impl View for Counter {
    type V = CounterView;

    closed spec fn view(&self) -> CounterView {
        CounterView {
            counter: self.counter as int,
            max_value: self.max_value as int,
            should_quit: self.should_quit,
            status_message: self.status_message@,
        }
    }
}

impl Counter {
    /// The invariant: the value lies between zero and the maximum.
    pub open spec fn wf(&self) -> bool {
        0 <= self@.counter <= self@.max_value <= i32::MAX
    }

    /// A counter at zero with a maximum of 100, and the keys as its status
    /// line.
    pub fn new() -> (c: Counter)
        ensures
            c.wf(),
            c@.counter == 0,
            c@.max_value == 100,
            !c@.should_quit,
            c@.status_message
                == "Press j/\u{2193} to increment \u{b7} k/\u{2191} to decrement \u{b7} r to reset \u{b7} q to quit"@,
    {
        Counter {
            counter: 0,
            max_value: 100,
            should_quit: false,
            status_message: String::from_str(
                "Press j/\u{2193} to increment \u{b7} k/\u{2191} to decrement \u{b7} r to reset \u{b7} q to quit",
            ),
        }
    }

    /// The value.
    pub fn counter(&self) -> (n: i32)
        ensures
            n == self@.counter,
    {
        self.counter
    }

    /// The maximum.
    pub fn max_value(&self) -> (n: i32)
        ensures
            n == self@.max_value,
    {
        self.max_value
    }

    /// Whether the user has asked to quit.
    pub fn should_quit(&self) -> (q: bool)
        ensures
            q == self@.should_quit,
    {
        self.should_quit
    }

    /// The status line.
    pub fn status_message(&self) -> (m: &str)
        ensures
            m@ == self@.status_message,
    {
        self.status_message.as_str()
    }

    /// The status line that reports the value and the maximum.
    fn report(&self) -> (m: String)
        requires
            self.wf(),
        ensures
            m@ == count_message(self@.counter, self@.max_value),
    {
        let mut m = String::from_str("Counter: ");
        push_decimal(&mut m, self.counter as u32);
        m.push('/');
        push_decimal(&mut m, self.max_value as u32);
        m
    }

    /// Take one key, named as the browser names it.
    pub fn handle_input(&mut self, key: &str)
        requires
            old(self).wf(),
        ensures
            final(self).wf(),
            final(self)@ == after_key(old(self)@, key@),
    {
        let k = chars_of(key);
        if key_is(&k, "q") || key_is(&k, "Escape") {
            self.should_quit = true;
        } else if key_is(&k, "j") || key_is(&k, "ArrowDown") {
            if self.counter < self.max_value {
                self.counter += 1;
            }
            self.status_message = self.report();
        } else if key_is(&k, "k") || key_is(&k, "ArrowUp") {
            if self.counter > 0 {
                self.counter -= 1;
            }
            self.status_message = self.report();
        } else if key_is(&k, "r") {
            self.counter = 0;
            self.status_message = String::from_str("Counter reset to 0");
        }
    }

    /// The share of the maximum that the value has reached, in percent.
    pub fn percent(&self) -> (p: u16)
        requires
            self.wf(),
        ensures
            p == percent_of(self@.counter, self@.max_value),
            p <= 100,
    {
        if self.max_value > 0 {
            let c: i64 = self.counter as i64;
            let m: i64 = self.max_value as i64;
            assert(0 <= c * 100 <= 100 * m) by (nonlinear_arith)
                requires
                    0 <= c <= m,
            ;
            let p: i64 = c * 100 / m;
            assert(0 <= p <= 100) by (nonlinear_arith)
                requires
                    0 <= c * 100 <= 100 * m,
                    m > 0,
                    p == (c * 100) as int / (m as int),
            ;
            p as u16
        } else {
            0
        }
    }
}

} // verus!
