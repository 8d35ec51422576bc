//! The kernel's message log.

use vstd::prelude::*;
use vstd::string::StringExecFns;

verus! {

/// How grave a message is.
#[derive(Clone, Copy, Debug, PartialEq, Eq, Structural)]
pub enum KernelMessageLevel {
    /// The kernel has met a critical error, usually on kernel panic.
    Fatal,
    /// An error that is not critical.
    Error,
    /// A warning that has no effect on running.
    Warning,
    /// A regular debug message or kernel log.
    Debug,
}

/// The character of the decimal digit `d`.
pub open spec fn digit_char(d: int) -> char {
    if d == 0 {
        '0'
    } else if d == 1 {
        '1'
    } else if d == 2 {
        '2'
    } else if d == 3 {
        '3'
    } else if d == 4 {
        '4'
    } else if d == 5 {
        '5'
    } else if d == 6 {
        '6'
    } else if d == 7 {
        '7'
    } else if d == 8 {
        '8'
    } else {
        '9'
    }
}

/// `n` in decimal digits.
pub open spec fn decimal(n: nat) -> Seq<char>
    decreases n,
{
    if n < 10 {
        seq![digit_char(n as int)]
    } else {
        decimal(n / 10).push(digit_char((n % 10) as int))
    }
}

/// `s` with as many `fill` in front as it takes to make it `width` long.
pub open spec fn padded(s: Seq<char>, width: nat, fill: char) -> Seq<char> {
    if s.len() >= width {
        s
    } else {
        Seq::new((width - s.len()) as nat, |i: int| fill) + s
    }
}

/// A message of the time `time`, in microseconds, as a line of the log:
/// `[sssss.uuuuuu] text`, the seconds padded with spaces to five places,
/// the microseconds with zeros to six.
pub open spec fn rendered(time: u64, message: Seq<char>) -> Seq<char> {
    seq!['['] + padded(decimal((time / 1000000) as nat), 5, ' ') + seq!['.'] + padded(
        decimal((time % 1000000) as nat),
        6,
        '0',
    ) + seq![']', ' '] + message
}

/// The text of one decimal digit.
fn digit_str(d: u64) -> (s: &'static str)
    requires
        d < 10,
    ensures
        s@ == seq![digit_char(d as int)],
{
    proof {
        reveal_strlit("0");
        reveal_strlit("1");
        reveal_strlit("2");
        reveal_strlit("3");
        reveal_strlit("4");
        reveal_strlit("5");
        reveal_strlit("6");
        reveal_strlit("7");
        reveal_strlit("8");
        reveal_strlit("9");
    }
    let s = if d == 0 {
        "0"
    } else if d == 1 {
        "1"
    } else if d == 2 {
        "2"
    } else if d == 3 {
        "3"
    } else if d == 4 {
        "4"
    } else if d == 5 {
        "5"
    } else if d == 6 {
        "6"
    } else if d == 7 {
        "7"
    } else if d == 8 {
        "8"
    } else {
        "9"
    };
    assert(s@ =~= seq![digit_char(d as int)]);
    s
}

/// Number of decimal digits of `n`.
fn decimal_len(n: u64) -> (len: usize)
    ensures
        len == decimal(n as nat).len(),
        1 <= len <= 20,
    decreases n,
{
    if n < 10 {
        1
    } else {
        let rest = decimal_len(n / 10);
        proof {
            lemma_decimal_len(n as nat);
        }
        rest + 1
    }
}

/// `10^k`.
pub open spec fn ten_to(k: nat) -> nat
    decreases k,
{
    if k == 0 {
        1
    } else {
        10 * ten_to((k - 1) as nat)
    }
}

proof fn lemma_decimal_len(n: nat)
    ensures
        n < 10 ==> decimal(n).len() == 1,
        n >= 10 ==> decimal(n).len() == decimal(n / 10).len() + 1,
        n <= u64::MAX ==> decimal(n).len() <= 20,
    decreases n,
{
    if n >= 10 {
        lemma_decimal_len(n / 10);
    }
    if n <= u64::MAX {
        reveal_with_fuel(ten_to, 21);
        assert(ten_to(20) == 100000000000000000000);
        lemma_decimal_bound(n, 20);
    }
}

proof fn lemma_decimal_bound(n: nat, k: nat)
    requires
        k >= 1,
        n < ten_to(k),
    ensures
        decimal(n).len() <= k,
    decreases k,
{
    reveal_with_fuel(ten_to, 3);
    if n >= 10 {
        lemma_decimal_bound(n / 10, (k - 1) as nat);
    }
}

/// Appends `n` in decimal digits.
fn append_decimal(s: &mut String, n: u64)
    ensures
        final(s)@ == old(s)@ + decimal(n as nat),
    decreases n,
{
    if n >= 10 {
        append_decimal(s, n / 10);
    }
    s.append(digit_str(n % 10));
    proof {
        if n >= 10 {
            assert(old(s)@ + decimal((n / 10) as nat) + seq![digit_char((n % 10) as int)] =~= old(
                s,
            )@ + decimal(n as nat));
        }
    }
}

/// Appends `n` in decimal digits, with `fill` in front to make it `width` long.
fn append_padded(s: &mut String, n: u64, width: usize, fill: &str, Ghost(c): Ghost<char>)
    requires
        fill@ == seq![c],
        width <= 20,
    ensures
        final(s)@ == old(s)@ + padded(decimal(n as nat), width as nat, c),
{
    let len = decimal_len(n);
    let mut i: usize = len;
    while i < width
        invariant
            len <= i <= width || (width < len && i == len),
            fill@ == seq![c],
            s@ == old(s)@ + Seq::new((i - len) as nat, |j: int| c),
        decreases width - i,
    {
        s.append(fill);
        proof {
            assert(old(s)@ + Seq::new((i - len) as nat, |j: int| c) + seq![c] =~= old(s)@ + Seq::new(
                (i + 1 - len) as nat,
                |j: int| c,
            ));
        }
        i += 1;
    }
    let ghost mid = s@;
    append_decimal(s, n);
    proof {
        if len >= width {
            assert(Seq::new(0nat, |j: int| c) =~= Seq::<char>::empty());
            assert(mid =~= old(s)@);
        } else {
            assert(mid + decimal(n as nat) =~= old(s)@ + (Seq::new(
                (width - len) as nat,
                |j: int| c,
            ) + decimal(n as nat)));
        }
    }
}

/// One message of the log.
pub struct KernelMessageEntry {
    pub level: KernelMessageLevel,
    /// The time of the message, in microseconds.
    pub time: u64,
    pub message: String,
}

impl KernelMessageEntry {
    /// A message of the time `time`, in microseconds.
    pub fn new(time: u64, level: KernelMessageLevel, msg: &str) -> (entry: Self)
        ensures
            entry.time == time,
            entry.level == level,
            entry.message@ == msg@,
    {
        Self { level, time, message: msg.to_owned() }
    }

    /// The message as a line of the log.
    pub open spec fn line(&self) -> Seq<char> {
        rendered(self.time, self.message@)
    }

    /// The message as a line of the log: `[sssss.uuuuuu] text`.
    pub fn render(&self) -> (text: String)
        ensures
            text@ == self.line(),
    {
        proof {
            reveal_strlit("[");
            reveal_strlit(".");
            reveal_strlit("] ");
            reveal_strlit(" ");
            reveal_strlit("0");
        }
        let mut text = String::new();
        text.append("[");
        assert(text@ =~= seq!['[']);
        assert(" "@ =~= seq![' ']);
        assert("0"@ =~= seq!['0']);
        append_padded(&mut text, self.time / 1000000, 5, " ", Ghost(' '));
        text.append(".");
        assert("."@ =~= seq!['.']);
        append_padded(&mut text, self.time % 1000000, 6, "0", Ghost('0'));
        text.append("] ");
        assert("] "@ =~= seq![']', ' ']);
        text.append(self.message.as_str());
        text
    }
}

/// The log of the kernel's messages.
pub struct KernelMessage {
    pub msgs: Vec<KernelMessageEntry>,
}

impl Default for KernelMessage {
    fn default() -> (log: Self)
        ensures
            log.msgs@.len() == 0,
    {
        KernelMessage { msgs: Vec::new() }
    }
}

impl KernelMessage {
    /// The lines of the log.
    pub open spec fn lines(&self) -> Seq<Seq<char>> {
        Seq::new(self.msgs@.len(), |i: int| self.msgs@[i].line())
    }

    /// Logs a message of a critical error at the time `time`; see `add_message`.
    pub fn fatal(&mut self, time: u64, msg: &str) -> (text: String)
        ensures
            final(self).msgs@.len() == old(self).msgs@.len() + 1,
            forall|i: int| 0 <= i < old(self).msgs@.len() ==> final(self).msgs@[i] == old(self).msgs@[i],
            final(self).msgs@.last().level == KernelMessageLevel::Fatal,
            final(self).msgs@.last().time == time,
            final(self).msgs@.last().message@ == msg@,
            final(self).lines() == old(self).lines().push(rendered(time, msg@)),
            text@ == rendered(time, msg@),
    {
        self.add_message(time, KernelMessageLevel::Fatal, msg)
    }

    /// Logs a message of an error at the time `time`; see `add_message`.
    pub fn error(&mut self, time: u64, msg: &str) -> (text: String)
        ensures
            final(self).msgs@.len() == old(self).msgs@.len() + 1,
            forall|i: int| 0 <= i < old(self).msgs@.len() ==> final(self).msgs@[i] == old(self).msgs@[i],
            final(self).msgs@.last().level == KernelMessageLevel::Error,
            final(self).msgs@.last().time == time,
            final(self).msgs@.last().message@ == msg@,
            final(self).lines() == old(self).lines().push(rendered(time, msg@)),
            text@ == rendered(time, msg@),
    {
        self.add_message(time, KernelMessageLevel::Error, msg)
    }

    /// Logs a warning at the time `time`; see `add_message`.
    pub fn warning(&mut self, time: u64, msg: &str) -> (text: String)
        ensures
            final(self).msgs@.len() == old(self).msgs@.len() + 1,
            forall|i: int| 0 <= i < old(self).msgs@.len() ==> final(self).msgs@[i] == old(self).msgs@[i],
            final(self).msgs@.last().level == KernelMessageLevel::Warning,
            final(self).msgs@.last().time == time,
            final(self).msgs@.last().message@ == msg@,
            final(self).lines() == old(self).lines().push(rendered(time, msg@)),
            text@ == rendered(time, msg@),
    {
        self.add_message(time, KernelMessageLevel::Warning, msg)
    }

    /// Logs a debug message at the time `time`; see `add_message`.
    pub fn debug(&mut self, time: u64, msg: &str) -> (text: String)
        ensures
            final(self).msgs@.len() == old(self).msgs@.len() + 1,
            forall|i: int| 0 <= i < old(self).msgs@.len() ==> final(self).msgs@[i] == old(self).msgs@[i],
            final(self).msgs@.last().level == KernelMessageLevel::Debug,
            final(self).msgs@.last().time == time,
            final(self).msgs@.last().message@ == msg@,
            final(self).lines() == old(self).lines().push(rendered(time, msg@)),
            text@ == rendered(time, msg@),
    {
        self.add_message(time, KernelMessageLevel::Debug, msg)
    }

    /// Appends a message of the time `time`, in microseconds, to the log and
    /// hands out its line, for whoever shows the log as it grows.
    pub fn add_message(&mut self, time: u64, level: KernelMessageLevel, msg: &str) -> (text: String)
        ensures
            final(self).msgs@.len() == old(self).msgs@.len() + 1,
            forall|i: int| 0 <= i < old(self).msgs@.len() ==> final(self).msgs@[i] == old(self).msgs@[i],
            final(self).msgs@.last().level == level,
            final(self).msgs@.last().time == time,
            final(self).msgs@.last().message@ == msg@,
            final(self).lines() == old(self).lines().push(rendered(time, msg@)),
            text@ == rendered(time, msg@),
    {
        let entry = KernelMessageEntry::new(time, level, msg);
        let text = entry.render();
        self.msgs.push(entry);
        proof {
            assert(self.lines() =~= old(self).lines().push(rendered(time, msg@)));
        }
        text
    }
}

} // verus!
