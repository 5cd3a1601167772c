//! Classification of the command line.
//!
//! The surrounding program hands the raw arguments over as byte strings,
//! together with two judgements it alone can make: whether the first and the
//! fourth argument are valid IP literals. Everything else — the argument
//! count, the `-h` and `-t` flags, the decimal thread count, and which error
//! a malformed line gets — is decided here. A line is accepted in two forms:
//! `<address>` (four workers), and `-t <threads> <address>`; `-h` asks for
//! the usage text; anything else is rejected with a distinct error.

use vstd::prelude::*;

verus! {

/// A reason to reject the command line before any scan starts.
#[derive(Clone, Copy, PartialEq, Eq, Structural, Debug)]
pub enum ParseError {
    NotEnoughArguments,
    TooManyArguments,
    InvalidAddress,
    InvalidThreadCount,
    InvalidSyntax,
}

/// What the command line asks for.
#[derive(Clone, Copy, PartialEq, Eq, Structural, Debug)]
pub enum CliAction {
    /// Print the usage text and exit; no scan.
    Help,
    /// Run a scan with `threads` workers; the target address stands at
    /// `address_index` on the command line.
    Scan { address_index: usize, threads: u16 },
    /// Reject the command line; no scan.
    Reject(ParseError),
}

/// `pat` occurs in `hay` starting at offset `k`.
pub open spec fn matches_at(hay: Seq<u8>, pat: Seq<u8>, k: int) -> bool {
    forall|j: int| 0 <= j < pat.len() ==> hay[k + j] == pat[j]
}

/// `pat` occurs somewhere in `hay`.
pub open spec fn has_pattern(hay: Seq<u8>, pat: Seq<u8>) -> bool {
    exists|k: int| 0 <= k <= hay.len() - pat.len() && matches_at(hay, pat, k)
}

/// The bytes of `-h`.
pub open spec fn help_pattern() -> Seq<u8> {
    seq![45u8, 104u8]
}

/// The bytes of `-t`.
pub open spec fn thread_pattern() -> Seq<u8> {
    seq![45u8, 116u8]
}

/// `pat` occurs in `hay` starting at `k`, checked byte by byte.
fn match_at(hay: &Vec<u8>, pat: &Vec<u8>, k: usize) -> (r: bool)
    requires
        k + pat@.len() <= hay@.len(),
    ensures
        r == matches_at(hay@, pat@, k as int),
{
    let hay_len = hay.len();
    let mut j: usize = 0;
    while j < pat.len()
        invariant
            k + pat@.len() <= hay@.len(),
            hay@.len() == hay_len,
            j <= pat@.len(),
            forall|m: int| 0 <= m < j ==> hay@[k + m] == pat@[m],
        decreases pat@.len() - j,
    {
        if hay[k + j] != pat[j] {
            assert(hay@[k + j] != pat@[j as int]);
            return false;
        }
        j = j + 1;
    }
    true
}

/// Substring search.
fn contains_pattern(hay: &Vec<u8>, pat: &Vec<u8>) -> (r: bool)
    ensures
        r == has_pattern(hay@, pat@),
{
    if pat.len() > hay.len() {
        return false;
    }
    let last: usize = hay.len() - pat.len();
    let mut k: usize = 0;
    while k < last
        invariant
            pat@.len() <= hay@.len(),
            last == hay@.len() - pat@.len(),
            k <= last,
            forall|m: int| 0 <= m < k ==> !matches_at(hay@, pat@, m),
        decreases last - k,
    {
        if match_at(hay, pat, k) {
            assert(0 <= k as int <= hay@.len() - pat@.len() && matches_at(hay@, pat@, k as int));
            return true;
        }
        k = k + 1;
    }
    if match_at(hay, pat, last) {
        assert(0 <= last as int <= hay@.len() - pat@.len() && matches_at(hay@, pat@, last as int));
        return true;
    }
    false
}

/// An ASCII decimal digit.
pub open spec fn is_digit(b: u8) -> bool {
    48 <= b <= 57
}

/// Every byte of `s` is a decimal digit.
pub open spec fn all_digits(s: Seq<u8>) -> bool {
    forall|i: int| 0 <= i < s.len() ==> is_digit(s[i])
}

/// The number the digit string `s` denotes.
pub open spec fn dec_value(s: Seq<u8>) -> int
    recommends
        all_digits(s),
    decreases s.len(),
{
    if s.len() == 0 {
        0
    } else {
        dec_value(s.drop_last()) * 10 + (s.last() - 48)
    }
}

/// The digits of `s` once an optional leading `+` sign is removed.
pub open spec fn digits_of(s: Seq<u8>) -> Seq<u8> {
    if s.len() > 0 && s[0] == 43 {
        s.drop_first()
    } else {
        s
    }
}

/// `s` denotes a number a `u16` can hold: an optional `+` sign, then at
/// least one decimal digit, with value at most 65535.
pub open spec fn is_u16_literal(s: Seq<u8>) -> bool {
    digits_of(s).len() > 0 && all_digits(digits_of(s)) && dec_value(digits_of(s)) <= 65535
}

/// The value `s` denotes.
pub open spec fn u16_literal_value(s: Seq<u8>) -> int {
    dec_value(digits_of(s))
}

proof fn lemma_dec_value_nonneg(s: Seq<u8>)
    requires
        all_digits(s),
    ensures
        dec_value(s) >= 0,
    decreases s.len(),
{
    if s.len() > 0 {
        lemma_dec_value_nonneg(s.drop_last());
    }
}

/// A digit string denotes at least as much as any of its prefixes.
proof fn lemma_dec_value_prefix(s: Seq<u8>, k: int)
    requires
        all_digits(s),
        0 <= k <= s.len(),
    ensures
        dec_value(s.take(k)) <= dec_value(s),
    decreases s.len(),
{
    if k == s.len() {
        assert(s.take(k) =~= s);
    } else {
        assert(s.drop_last().take(k) =~= s.take(k));
        lemma_dec_value_prefix(s.drop_last(), k);
        lemma_dec_value_nonneg(s.drop_last());
    }
}

/// Reads a `u16` from its decimal notation, as the thread-count argument
/// uses it: `Some` exactly on strings of an optional `+` sign and digits
/// whose value fits.
pub fn parse_u16(s: &Vec<u8>) -> (r: Option<u16>)
    ensures
        is_u16_literal(s@) ==> 0 <= u16_literal_value(s@) <= 65535,
        is_u16_literal(s@) ==> r == Some(u16_literal_value(s@) as u16),
        !is_u16_literal(s@) ==> r is None,
{
    let ghost d = digits_of(s@);
    let start: usize = if s.len() > 0 && s[0] == 43 {
        1
    } else {
        0
    };
    proof {
        assert(d =~= s@.subrange(start as int, s@.len() as int));
    }
    if s.len() == start {
        return None;
    }
    let mut acc: u32 = 0;
    let mut i: usize = start;
    while i < s.len()
        invariant
            d == digits_of(s@),
            d =~= s@.subrange(start as int, s@.len() as int),
            start <= i <= s@.len(),
            start <= 1,
            d.len() == s@.len() - start,
            forall|j: int| 0 <= j < i - start ==> is_digit(d[j]),
            acc == dec_value(d.take(i - start)),
            acc <= 65535,
        decreases s@.len() - i,
    {
        let b = s[i];
        assert(d[i - start] == b);
        if b < 48 || b > 57 {
            assert(!all_digits(d));
            return None;
        }
        proof {
            assert(d.take(i - start + 1).drop_last() =~= d.take(i - start));
            assert(d.take(i - start + 1).last() == b);
        }
        acc = acc * 10 + (b - 48) as u32;
        i = i + 1;
        if acc > 65535 {
            proof {
                if all_digits(d) {
                    lemma_dec_value_prefix(d, i - start);
                }
            }
            return None;
        }
    }
    proof {
        assert(d.take(d.len() as int) =~= d);
        assert(all_digits(d));
    }
    Some(acc as u16)
}

/// The rule the whole command line is judged by. `first_is_addr` and
/// `later_is_addr` say whether the argument at index 1 and the one at index
/// 3 are valid IP literals — the one judgement left to the caller.
pub open spec fn cli_spec(args: Seq<Seq<u8>>, first_is_addr: bool, later_is_addr: bool) -> CliAction {
    if args.len() < 2 {
        CliAction::Reject(ParseError::NotEnoughArguments)
    } else if args.len() > 4 {
        CliAction::Reject(ParseError::TooManyArguments)
    } else if first_is_addr {
        CliAction::Scan { address_index: 1, threads: 4 }
    } else if has_pattern(args[1], help_pattern()) {
        CliAction::Help
    } else if has_pattern(args[1], thread_pattern()) {
        if args.len() < 4 {
            CliAction::Reject(ParseError::NotEnoughArguments)
        } else if !later_is_addr {
            CliAction::Reject(ParseError::InvalidAddress)
        } else if is_u16_literal(args[2]) && u16_literal_value(args[2]) >= 1 {
            CliAction::Scan { address_index: 3, threads: u16_literal_value(args[2]) as u16 }
        } else {
            CliAction::Reject(ParseError::InvalidThreadCount)
        }
    } else {
        CliAction::Reject(ParseError::InvalidSyntax)
    }
}

/// The views of the argument strings.
pub open spec fn arg_views(args: Seq<Vec<u8>>) -> Seq<Seq<u8>> {
    args.map_values(|a: Vec<u8>| a@)
}

/// Classifies the command line. The caller judges the IP literals (and may
/// pass anything when the index in question is absent: the rule does not
/// read `later_is_addr` unless four arguments are present, nor
/// `first_is_addr` unless two are).
pub fn parse_args(args: &Vec<Vec<u8>>, first_is_addr: bool, later_is_addr: bool) -> (r: CliAction)
    ensures
        r == cli_spec(arg_views(args@), first_is_addr, later_is_addr),
{
    let ghost gargs = arg_views(args@);
    if args.len() < 2 {
        return CliAction::Reject(ParseError::NotEnoughArguments);
    }
    if args.len() > 4 {
        return CliAction::Reject(ParseError::TooManyArguments);
    }
    if first_is_addr {
        return CliAction::Scan { address_index: 1, threads: 4 };
    }
    let mut help_pat: Vec<u8> = Vec::new();
    help_pat.push(45);
    help_pat.push(104);
    proof {
        assert(help_pat@ =~= help_pattern());
        assert(gargs[1] == args@[1]@);
    }
    if contains_pattern(&args[1], &help_pat) {
        return CliAction::Help;
    }
    let mut thread_pat: Vec<u8> = Vec::new();
    thread_pat.push(45);
    thread_pat.push(116);
    proof {
        assert(thread_pat@ =~= thread_pattern());
    }
    if contains_pattern(&args[1], &thread_pat) {
        if args.len() < 4 {
            return CliAction::Reject(ParseError::NotEnoughArguments);
        }
        if !later_is_addr {
            return CliAction::Reject(ParseError::InvalidAddress);
        }
        proof {
            assert(gargs[2] == args@[2]@);
        }
        match parse_u16(&args[2]) {
            Some(threads) => {
                if threads >= 1 {
                    CliAction::Scan { address_index: 3, threads }
                } else {
                    CliAction::Reject(ParseError::InvalidThreadCount)
                }
            },
            None => CliAction::Reject(ParseError::InvalidThreadCount),
        }
    } else {
        CliAction::Reject(ParseError::InvalidSyntax)
    }
}

/// The message text of each rejection.
pub open spec fn spec_message(e: ParseError) -> Seq<char> {
    match e {
        ParseError::NotEnoughArguments => "ERROR - Not enough arguments"@,
        ParseError::TooManyArguments => "ERROR - Too many arguments"@,
        ParseError::InvalidAddress => "ERROR - Not a valid IPADDR; must be IPv4 or IPv6"@,
        ParseError::InvalidThreadCount => "ERROR - Failed to parse thread number"@,
        ParseError::InvalidSyntax => "ERROR - Invalid syntax"@,
    }
}

impl ParseError {
    /// The message printed when the command line is rejected for this
    /// reason.
    pub fn message(&self) -> (m: &'static str)
        ensures
            m@ == spec_message(*self),
    {
        match self {
            ParseError::NotEnoughArguments => "ERROR - Not enough arguments",
            ParseError::TooManyArguments => "ERROR - Too many arguments",
            ParseError::InvalidAddress => "ERROR - Not a valid IPADDR; must be IPv4 or IPv6",
            ParseError::InvalidThreadCount => "ERROR - Failed to parse thread number",
            ParseError::InvalidSyntax => "ERROR - Invalid syntax",
        }
    }
}

} // verus!
