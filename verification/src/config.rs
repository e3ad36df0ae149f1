//! The options of the translation, and how they are set by name.
//!
//! An option that is not known, and a value that an option cannot take, are
//! passed over: the option keeps the value that it has.

use vstd::prelude::*;
use vstd::string::*;

verus! {

/// The options of the translation.
#[derive(Clone, Copy, Debug, PartialEq, Eq, Structural)]
pub struct TranslationConfig {
    /// The number of bytes in one page of linear memory.
    pub memory_page_size: u32,
    /// True when a control construct, a function and a call may leave
    /// several operands on the stack.
    pub multi_value: bool,
    /// True when a call through the table checks the signature of the
    /// function that it finds there.
    pub indirect_call_checks: bool,
}

/// The number that the decimal digit `c` stands for.
pub open spec fn digit_value(c: char) -> nat {
    (c as u32 - '0' as u32) as nat
}

/// True when `c` is one of the decimal digits.
pub open spec fn is_digit(c: char) -> bool {
    '0' <= c <= '9'
}

/// The number that the decimal digits of `s` stand for.
pub open spec fn digits_value(s: Seq<char>) -> nat
    decreases s.len(),
{
    if s.len() == 0 {
        0
    } else {
        digits_value(s.drop_last()) * 10 + digit_value(s.last())
    }
}

/// The number that `s` stands for, where `s` is a decimal numeral, made of
/// digits alone and of one at least, for a number that fits 32 bits.
pub open spec fn decimal(s: Seq<char>) -> Option<u32> {
    if s.len() > 0 && (forall|i: int| 0 <= i < s.len() ==> is_digit(#[trigger] s[i])) && digits_value(s)
        <= u32::MAX {
        Some(digits_value(s) as u32)
    } else {
        None
    }
}

/// The truth value that `s` stands for, where it is `true` or `false`.
pub open spec fn flag(s: Seq<char>) -> Option<bool> {
    if s == "true"@ {
        Some(true)
    } else if s == "false"@ {
        Some(false)
    } else {
        None
    }
}

/// A numeral stands for no less than what it begins with.
pub proof fn lemma_digits_value_prefix(s: Seq<char>, n: int)
    requires
        0 <= n <= s.len(),
    ensures
        digits_value(s.take(n)) <= digits_value(s),
    decreases s.len() - n,
{
    if n < s.len() {
        assert(s.take(n + 1).drop_last() =~= s.take(n));
        lemma_digits_value_prefix(s, n + 1);
    } else {
        assert(s.take(n) =~= s);
    }
}

/// True when `a` and `b` are the same text.
pub fn same_text(a: &str, b: &str) -> (r: bool)
    ensures
        r == (a@ == b@),
{
    a.to_owned() == b.to_owned()
}

/// The number that `s` stands for, see [`decimal`].
pub fn parse_decimal(s: &str) -> (r: Option<u32>)
    ensures
        r == decimal(s@),
{
    let n = s.unicode_len();
    if n == 0 {
        return None;
    }
    let mut value: u32 = 0;
    let mut i: usize = 0;
    while i < n
        invariant
            0 <= i <= n == s@.len(),
            forall|k: int| 0 <= k < i ==> is_digit(#[trigger] s@[k]),
            value == digits_value(s@.take(i as int)),
        decreases n - i,
    {
        let c = s.get_char(i);
        if c < '0' || c > '9' {
            return None;
        }
        let d: u32 = c as u32 - '0' as u32;
        proof {
            assert(s@.take(i + 1).drop_last() =~= s@.take(i as int));
            assert(s@.take(i + 1).last() == c);
            lemma_digits_value_prefix(s@, i + 1);
        }
        if value > (u32::MAX - d) / 10 {
            return None;
        }
        value = value * 10 + d;
        i += 1;
    }
    proof {
        assert(s@.take(n as int) =~= s@);
    }
    Some(value)
}

/// The truth value that `s` stands for, see [`flag`].
pub fn parse_flag(s: &str) -> (r: Option<bool>)
    ensures
        r == flag(s@),
{
    if same_text(s, "true") {
        Some(true)
    } else if same_text(s, "false") {
        Some(false)
    } else {
        None
    }
}

impl TranslationConfig {
    /// The options as they are when nothing sets them: pages of 64 KiB,
    /// several results allowed, and signatures checked.
    pub open spec fn spec_default() -> TranslationConfig {
        TranslationConfig { memory_page_size: 65536, multi_value: true, indirect_call_checks: true }
    }

    /// The options after the option `name` has been set to `value`.
    ///
    /// `memory-page-size` takes a decimal numeral for a number of bytes
    /// other than zero, `multi-value` and `indirect-call-checks` take `true`
    /// or `false`. Every other name, and every other value, leaves the
    /// options as they are.
    pub open spec fn with_option(self, name: Seq<char>, value: Seq<char>) -> TranslationConfig {
        if name == "memory-page-size"@ {
            match decimal(value) {
                Some(n) => if n > 0 {
                    TranslationConfig { memory_page_size: n, ..self }
                } else {
                    self
                },
                None => self,
            }
        } else if name == "multi-value"@ {
            match flag(value) {
                Some(b) => TranslationConfig { multi_value: b, ..self },
                None => self,
            }
        } else if name == "indirect-call-checks"@ {
            match flag(value) {
                Some(b) => TranslationConfig { indirect_call_checks: b, ..self },
                None => self,
            }
        } else {
            self
        }
    }

    /// True when `name` is an option and `value` a value that it can take.
    pub open spec fn accepts(name: Seq<char>, value: Seq<char>) -> bool {
        if name == "memory-page-size"@ {
            decimal(value) matches Some(n) && n > 0
        } else if name == "multi-value"@ || name == "indirect-call-checks"@ {
            flag(value) is Some
        } else {
            false
        }
    }

    /// The options as they are when nothing sets them.
    pub fn new() -> (c: Self)
        ensures
            c == Self::spec_default(),
    {
        TranslationConfig { memory_page_size: 65536, multi_value: true, indirect_call_checks: true }
    }

    /// Sets the option `name` to `value`, as [`TranslationConfig::with_option`]
    /// says, and tells whether the option was known and could take the value.
    pub fn set_option(&mut self, name: &str, value: &str) -> (accepted: bool)
        ensures
            *final(self) == old(self).with_option(name@, value@),
            accepted == Self::accepts(name@, value@),
    {
        if same_text(name, "memory-page-size") {
            match parse_decimal(value) {
                Some(n) => {
                    if n > 0 {
                        self.memory_page_size = n;
                        true
                    } else {
                        false
                    }
                },
                None => false,
            }
        } else if same_text(name, "multi-value") {
            match parse_flag(value) {
                Some(b) => {
                    self.multi_value = b;
                    true
                },
                None => false,
            }
        } else if same_text(name, "indirect-call-checks") {
            match parse_flag(value) {
                Some(b) => {
                    self.indirect_call_checks = b;
                    true
                },
                None => false,
            }
        } else {
            false
        }
    }

    /// The number of bytes in `pages` pages of linear memory.
    pub fn bytes_in_pages(&self, pages: u32) -> (n: u64)
        ensures
            n == pages * self.memory_page_size,
    {
        assert(pages * self.memory_page_size <= u64::MAX) by (nonlinear_arith)
            requires
                pages <= u32::MAX,
                self.memory_page_size <= u32::MAX,
        ;
        pages as u64 * self.memory_page_size as u64
    }
}

} // verus!
