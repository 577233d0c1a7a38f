//! The configuration of the service: where it listens and how many entries
//! a node caches, as read from three variables of the environment.

use vstd::prelude::*;
use vstd::std_specs::iter::IteratorSpec;

verus! {

broadcast use vstd::string::group_string_axioms;

/// Why the configuration could not be read.
#[derive(Debug)]
pub enum EnvError {
    /// The variable of this name is not set.
    NotFound(String),
    /// The value of the variable of this name is not valid Unicode.
    InvalidValueUnicode(String),
    /// The value of the variable of this name is not a number.
    InvalidValueNumber(String),
}

/// The configuration.
#[derive(Debug)]
pub struct EnvVars {
    pub host: String,
    pub port: String,
    pub suggestion_number: usize,
}

/// The value of a decimal digit.
pub open spec fn digit_value(c: char) -> Option<nat> {
    if '0' <= c && c <= '9' {
        Some((c as u32 - '0' as u32) as nat)
    } else {
        None
    }
}

/// The number that a sequence of decimal digits writes; the empty sequence writes 0.
pub open spec fn digits_value(s: Seq<char>) -> Option<nat>
    decreases s.len(),
{
    if s.len() == 0 {
        Some(0)
    } else {
        match (digits_value(s.drop_last()), digit_value(s.last())) {
            (Some(value), Some(digit)) => Some(value * 10 + digit),
            _ => None,
        }
    }
}

/// The number that a text writes: decimal digits, at least one, with or
/// without a plus sign before them, whose value fits the machine word.
pub open spec fn number_of(text: Seq<char>) -> Option<usize> {
    let digits = if text.len() > 0 && text[0] == '+' {
        text.skip(1)
    } else {
        text
    };
    match digits_value(digits) {
        Some(value) => if digits.len() > 0 && value <= usize::MAX {
            Some(value as usize)
        } else {
            None
        },
        None => None,
    }
}

/// What the first digits of a text write is no more than what the whole
/// text writes, and a text whose first characters are no digits is none.
proof fn lemma_digits_grow(s: Seq<char>, n: int)
    requires
        0 <= n <= s.len(),
    ensures
        digits_value(s.take(n)) is None ==> digits_value(s) is None,
        digits_value(s) is Some ==> digits_value(s.take(n))->0 <= digits_value(s)->0,
    decreases s.len() - n,
{
    if n == s.len() {
        assert(s.take(n) =~= s);
    } else {
        lemma_digits_grow(s, n + 1);
        assert(s.take(n + 1).drop_last() =~= s.take(n));
    }
}

/// Reads a number from its decimal writing.
pub fn parse_number(text: &str) -> (number: Option<usize>)
    ensures
        number == number_of(text@),
{
    let mut rest = text.chars();
    let mut value: usize = 0;
    let mut seen: bool = false;
    let ghost mut start: int = 0;
    match rest.next() {
        None => {
            return None;
        },
        Some(first) => {
            if first == '+' {
                proof {
                    start = 1;
                }
            } else if '0' <= first && first <= '9' {
                value = (first as u32 - '0' as u32) as usize;
                seen = true;
                assert(text@.take(1).drop_last() =~= Seq::<char>::empty());
                assert(digits_value(text@.take(1).drop_last()) == Some(0nat));
            } else {
                proof {
                    assert(text@.take(1).drop_last() =~= Seq::<char>::empty());
                    lemma_digits_grow(text@, 1);
                }
                return None;
            }
        },
    }
    let ghost digits = text@.skip(start);
    let ghost mut done: int = 1 - start;
    assert(digits.take(0) =~= Seq::<char>::empty());
    assert(start == 0 ==> digits =~= text@);
    loop
        invariant
            rest.obeys_prophetic_iter_laws(),
            rest.decrease() is Some,
            digits == text@.skip(start),
            start == 0 || start == 1,
            start == 1 <==> (text@.len() > 0 && text@[0] == '+'),
            0 <= done <= digits.len(),
            rest.remaining() == digits.skip(done),
            seen == (done > 0),
            digits_value(digits.take(done)) == Some(value as nat),
        decreases rest.decrease()->0,
    {
        match rest.next() {
            None => {
                assert(digits.take(done) =~= digits);
                assert(start == 0 ==> digits =~= text@);
                return if seen {
                    Some(value)
                } else {
                    None
                };
            },
            Some(c) => {
                proof {
                    assert(digits.take(done + 1).drop_last() =~= digits.take(done));
                    assert(digits.take(done + 1).last() == c);
                    assert(digits.skip(done).drop_first() =~= digits.skip(done + 1));
                    lemma_digits_grow(digits, done + 1);
                    assert(start == 0 ==> digits =~= text@);
                }
                if !('0' <= c && c <= '9') {
                    return None;
                }
                let digit: usize = (c as u32 - '0' as u32) as usize;
                if value > (usize::MAX - digit) / 10 {
                    return None;
                }
                value = value * 10 + digit;
                seen = true;
                proof {
                    done = done + 1;
                }
            },
        }
    }
}

impl EnvVars {
    /// The configuration that three lookups give: of the host, of the port and
    /// of the number of suggestions, in this order.
    ///
    /// A host that could not be read is replaced by `0.0.0.0`. A port or a
    /// number that could not be read is an error, the port's first. A number
    /// that is not written in decimal digits, or that is less than one, is an
    /// error too: a node caches at least one entry.
    pub fn new(
        host: Result<String, EnvError>,
        port: Result<String, EnvError>,
        suggestion_number: Result<String, EnvError>,
    ) -> (result: Result<EnvVars, EnvError>)
        ensures
            match result {
                Ok(vars) => {
                    &&& port is Ok
                    &&& suggestion_number is Ok
                    &&& vars.host@ == if host is Ok {
                        host->Ok_0@
                    } else {
                        "0.0.0.0"@
                    }
                    &&& vars.port == port->Ok_0
                    &&& number_of(suggestion_number->Ok_0@) == Some(vars.suggestion_number)
                    &&& vars.suggestion_number >= 1
                },
                Err(error) => {
                    if port is Err {
                        error == port->Err_0
                    } else if suggestion_number is Err {
                        error == suggestion_number->Err_0
                    } else {
                        &&& number_of(suggestion_number->Ok_0@) is None || number_of(
                            suggestion_number->Ok_0@,
                        ) == Some(0usize)
                        &&& error matches EnvError::InvalidValueNumber(key)
                        &&& key@ == "SUGGESTION_NUMBER"@
                    }
                },
            },
    {
        let host: String = match host {
            Ok(value) => value,
            Err(_) => "0.0.0.0".to_owned(),
        };
        let port: String = match port {
            Ok(value) => value,
            Err(error) => {
                return Err(error);
            },
        };
        let text: String = match suggestion_number {
            Ok(value) => value,
            Err(error) => {
                return Err(error);
            },
        };
        match parse_number(text.as_str()) {
            Some(suggestion_number) => {
                if suggestion_number >= 1 {
                    Ok(EnvVars { host, port, suggestion_number })
                } else {
                    Err(EnvError::InvalidValueNumber("SUGGESTION_NUMBER".to_owned()))
                }
            },
            None => Err(EnvError::InvalidValueNumber("SUGGESTION_NUMBER".to_owned())),
        }
    }
}

} // verus!
