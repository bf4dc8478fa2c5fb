//! Port ranges as the command line writes them: `"A-B"`.

use crate::text::{
    chars_of, decimal, digit_of, digits_value, lemma_decimal_reads_back, read_digits, to_decimal,
};
use crate::Port;
use vstd::prelude::*;
use vstd::string::*;

verus! {

/// The ports from `start` to `end`, both counted.
#[derive(Debug, Clone, Copy, PartialEq, Eq, Structural)]
pub struct PortRange {
    pub start: Port,
    pub end: Port,
}

/// Why a piece of text is no port range.
#[derive(Debug, Clone, Copy, PartialEq, Eq, Structural)]
pub enum RangeError {
    /// The text does not hold exactly one `-`.
    Shape,
    /// What stands before or after the `-` is no port number.
    Number,
    /// The range ends before it starts.
    Order,
}

/// The port that `s` stands for: digits, after a `+` or not, that make a
/// number of at most 65535.
pub open spec fn port_number(s: Seq<char>) -> Option<Port> {
    let digits = if s.len() > 0 && s[0] == '+' {
        s.drop_first()
    } else {
        s
    };
    if digits.len() == 0 {
        None
    } else {
        match digits_value(digits) {
            Some(number) => if number <= 65535 {
                Some(number as Port)
            } else {
                None
            },
            None => None,
        }
    }
}

/// Whether the one `-` of `s` stands at `at`.
pub open spec fn splits_at(s: Seq<char>, at: int) -> bool {
    &&& 0 <= at < s.len()
    &&& s[at] == '-'
    &&& forall|i: int| 0 <= i < s.len() && i != at ==> s[i] != '-'
}

/// What `s` stands for: the range whose ends are written on either side of
/// the one `-`, or the reason why it is none.
pub open spec fn parse_range(s: Seq<char>) -> Result<PortRange, RangeError> {
    if exists|at: int| splits_at(s, at) {
        let at = choose|at: int| splits_at(s, at);
        match (port_number(s.take(at)), port_number(s.skip(at + 1))) {
            (Some(start), Some(end)) => if start <= end {
                Ok(PortRange { start, end })
            } else {
                Err(RangeError::Order)
            },
            _ => Err(RangeError::Number),
        }
    } else {
        Err(RangeError::Shape)
    }
}

/// Reads `chars[from..to]` as a port number.
fn read_port(chars: &Vec<char>, from: usize, to: usize) -> (port: Option<Port>)
    requires
        from <= to <= chars.len(),
    ensures
        port == port_number(chars@.subrange(from as int, to as int)),
{
    let ghost s = chars@.subrange(from as int, to as int);
    let first = if from < to && chars[from] == '+' {
        from + 1
    } else {
        from
    };
    assert(chars@.subrange(first as int, to as int) =~= if s.len() > 0 && s[0] == '+' {
        s.drop_first()
    } else {
        s
    });
    if first == to {
        return None;
    }
    match read_digits(chars, first, to, 65535) {
        Some(number) => Some(number as Port),
        None => None,
    }
}

impl PortRange {
    /// A range is well formed when it does not end before it starts.
    pub open spec fn well_formed(self) -> bool {
        self.start <= self.end
    }

    /// Whether `port` lies in the range. A range that ends before it starts
    /// holds no port.
    pub open spec fn contains(self, port: Port) -> bool {
        self.start <= port <= self.end
    }

    /// The ports of the range.
    pub open spec fn ports(self) -> Set<Port> {
        Set::new(|p: Port| self.contains(p))
    }

    /// How the range is written: `"A-B"`.
    pub open spec fn text(self) -> Seq<char> {
        decimal(self.start as nat) + seq!['-'] + decimal(self.end as nat)
    }

    /// The range from the first element of `value` to the second.
    pub fn from(value: Vec<Port>) -> (range: PortRange)
        requires
            value.len() >= 2,
        ensures
            range == (PortRange { start: value[0], end: value[1] }),
    {
        PortRange { start: value[0], end: value[1] }
    }

    /// Reads a range written as `"A-B"`. A and B are port numbers in
    /// decimal, each with a `+` before it or not; A is not above B.
    pub fn from_str(s: &str) -> (parsed: Result<PortRange, RangeError>)
        ensures
            parsed == parse_range(s@),
            parsed matches Ok(range) ==> range.well_formed(),
    {
        let chars = chars_of(s);
        let mut at: usize = 0;
        while at < chars.len() && chars[at] != '-'
            invariant
                at <= chars.len(),
                forall|i: int| 0 <= i < at ==> chars[i] != '-',
            decreases chars.len() - at,
        {
            at += 1;
        }
        if at == chars.len() {
            assert(forall|k: int| !splits_at(chars@, k));
            return Err(RangeError::Shape);
        }
        let mut next: usize = at + 1;
        while next < chars.len() && chars[next] != '-'
            invariant
                at < next <= chars.len(),
                forall|i: int| at < i < next ==> chars[i] != '-',
            decreases chars.len() - next,
        {
            next += 1;
        }
        if next < chars.len() {
            assert forall|k: int| !splits_at(chars@, k) by {
                if splits_at(chars@, k) {
                    assert(chars[at as int] == '-');
                    assert(chars[next as int] == '-');
                }
            }
            return Err(RangeError::Shape);
        }
        assert(splits_at(chars@, at as int));
        let ghost chosen = choose|k: int| splits_at(chars@, k);
        assert(chosen == at);
        assert(chars@.take(at as int) =~= chars@.subrange(0, at as int));
        assert(chars@.skip(at + 1) =~= chars@.subrange(at + 1, chars.len() as int));
        let start = read_port(&chars, 0, at);
        let end = read_port(&chars, at + 1, chars.len());
        match (start, end) {
            (Some(start), Some(end)) => if start <= end {
                Ok(PortRange { start, end })
            } else {
                Err(RangeError::Order)
            },
            _ => Err(RangeError::Number),
        }
    }

    /// Writes the range as `"A-B"`.
    pub fn to_text(&self) -> (text: String)
        ensures
            text@ == self.text(),
    {
        let mut text = to_decimal(self.start as u64);
        proof {
            reveal_strlit("-");
        }
        text.append("-");
        let end = to_decimal(self.end as u64);
        text.append(end.as_str());
        assert("-"@ =~= seq!['-']);
        text
    }
}

impl std::str::FromStr for PortRange {
    type Err = RangeError;

    /// Reads a range written as `"A-B"`, as [`PortRange::from_str`] does.
    fn from_str(s: &str) -> (parsed: Result<PortRange, RangeError>)
        ensures
            parsed == parse_range(s@),
            parsed matches Ok(range) ==> range.well_formed(),
    {
        PortRange::from_str(s)
    }
}

impl RangeError {
    /// The error in words.
    pub fn message(&self) -> (message: &'static str)
        ensures
            message@ == match self {
                RangeError::Shape => "expected start-end"@,
                RangeError::Number => "can't parse port as u16"@,
                RangeError::Order => "range ends before it starts"@,
            },
    {
        match self {
            RangeError::Shape => "expected start-end",
            RangeError::Number => "can't parse port as u16",
            RangeError::Order => "range ends before it starts",
        }
    }
}

/// Why a scan cannot be set up.
#[derive(Debug, Clone, Copy, PartialEq, Eq, Structural)]
pub enum ConfigError {
    /// Neither a port nor a range was given.
    NoProbes,
}

impl ConfigError {
    /// The error in words.
    pub fn message(&self) -> (message: &'static str)
        ensures
            message@ == "either port(s) or range(s) required"@,
    {
        "either port(s) or range(s) required"
    }
}

/// Checks that something is there to scan: a port or a range, at least.
pub fn check_probes(ports: &Vec<Port>, ranges: &Vec<PortRange>) -> (checked: Result<
    (),
    ConfigError,
>)
    ensures
        checked == if ports@.len() == 0 && ranges@.len() == 0 {
            Err::<(), ConfigError>(ConfigError::NoProbes)
        } else {
            Ok(())
        },
{
    if ports.len() == 0 && ranges.len() == 0 {
        Err(ConfigError::NoProbes)
    } else {
        Ok(())
    }
}

/// Reading what was written for a well-formed range gives the range back.
pub proof fn lemma_range_round_trip(range: PortRange)
    requires
        range.well_formed(),
    ensures
        parse_range(range.text()) == Ok::<PortRange, RangeError>(range),
{
    let first = decimal(range.start as nat);
    let second = decimal(range.end as nat);
    let s = range.text();
    let at = first.len() as int;
    lemma_decimal_reads_back(range.start as nat);
    lemma_decimal_reads_back(range.end as nat);
    assert forall|i: int| 0 <= i < s.len() && i != at implies s[i] != '-' by {
        if i < at {
            assert(s[i] == first[i]);
            assert(digit_of(first[i]) is Some);
        } else {
            assert(s[i] == second[i - at - 1]);
            assert(digit_of(second[i - at - 1]) is Some);
        }
    }
    assert(s[at] == '-');
    assert(splits_at(s, at));
    let chosen = choose|k: int| splits_at(s, k);
    assert(chosen == at);
    assert(s.take(at) =~= first);
    assert(s.skip(at + 1) =~= second);
    assert(digit_of(first[0]) is Some);
    assert(digit_of(second[0]) is Some);
}

} // verus!
