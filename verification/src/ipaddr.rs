//! Validated IP address literals: the data the rest of the library
//! publishes for a domain.
//!
//! The accepted grammars are stated as spec functions: dotted-quad
//! decimal for IPv4; colon-separated hexadecimal groups with at most
//! one `::` compression for IPv6.  The IPv6 grammar deliberately
//! rejects the embedded-IPv4 form (`::ffff:1.2.3.4`) and zone indexes
//! (`fe80::1%eth0`): an echo body in such a form counts as a failed
//! IPv6 probe, and the resolver falls back to IPv4.

use vstd::prelude::*;
use vstd::seq_lib::*;
use vstd::string::*;
use crate::text::{lemma_split_chars, spec_split, split_str};

verus! {

/// A validated address literal of one family.
#[derive(Debug)]
pub enum IpAddress {
    V4(String),
    V6(String),
}

/// Mathematical model of an address literal.
pub enum IpAddressV {
    V4(Seq<char>),
    V6(Seq<char>),
}

impl View for IpAddress {
    type V = IpAddressV;

    open spec fn view(&self) -> IpAddressV {
        match self {
            IpAddress::V4(s) => IpAddressV::V4(s@),
            IpAddress::V6(s) => IpAddressV::V6(s@),
        }
    }
}

pub open spec fn is_digit_char(c: char) -> bool {
    48 <= c as u32 <= 57
}

pub open spec fn is_hex_digit_char(c: char) -> bool {
    is_digit_char(c) || (97 <= c as u32 <= 102) || (65 <= c as u32 <= 70)
}

/// Numeric value of a decimal digit string.
pub open spec fn spec_dec_val(s: Seq<char>) -> int
    decreases s.len(),
{
    if s.len() == 0 {
        0
    } else {
        spec_dec_val(s.drop_last()) * 10 + (s.last() as u32 - 48)
    }
}

/// One IPv4 octet: one to three decimal digits, value at most 255, no
/// leading zero.
pub open spec fn is_octet(s: Seq<char>) -> bool {
    &&& 1 <= s.len() <= 3
    &&& forall|i: int| 0 <= i < s.len() ==> is_digit_char(#[trigger] s[i])
    &&& spec_dec_val(s) <= 255
    &&& (s.len() > 1 ==> s[0] != '0')
}

/// Dotted-quad IPv4 literal.
pub open spec fn is_ipv4_literal(s: Seq<char>) -> bool {
    let parts = spec_split(s, '.');
    parts.len() == 4 && forall|i: int| 0 <= i < parts.len() ==> is_octet(#[trigger] parts[i])
}

/// One IPv6 group: one to four hexadecimal digits.
pub open spec fn is_hex_group(s: Seq<char>) -> bool {
    &&& 1 <= s.len() <= 4
    &&& forall|i: int| 0 <= i < s.len() ==> is_hex_digit_char(#[trigger] s[i])
}

/// Number of empty parts in a split.
pub open spec fn spec_count_empty(parts: Seq<Seq<char>>) -> int
    decreases parts.len(),
{
    if parts.len() == 0 {
        0
    } else {
        spec_count_empty(parts.drop_last()) + if parts.last().len() == 0 {
            1int
        } else {
            0int
        }
    }
}

/// IPv6 literal: hexadecimal groups separated by `:`, with at most one
/// `::` compression, standing for eight groups in all.
pub open spec fn is_ipv6_literal(s: Seq<char>) -> bool {
    let parts = spec_split(s, ':');
    let n = parts.len() as int;
    let e = spec_count_empty(parts);
    &&& forall|i: int|
        0 <= i < parts.len() ==> (#[trigger] parts[i]).len() == 0 || is_hex_group(parts[i])
    &&& {
        ||| (e == 0 && n == 8)
        ||| (e == 1 && n <= 8 && parts[0].len() > 0 && parts[n - 1].len() > 0)
        ||| (e == 2 && 3 <= n <= 9 && ((parts[0].len() == 0 && parts[1].len() == 0 && forall|
            i: int,
        |
            2 <= i < n ==> (#[trigger] parts[i]).len() > 0) || (parts[n - 1].len() == 0
            && parts[n - 2].len() == 0 && forall|i: int|
            0 <= i < n - 2 ==> (#[trigger] parts[i]).len() > 0)))
        ||| (e == 3 && n == 3)
    }
}

/// A well-formed address: the literal matches its family's grammar.
pub open spec fn ip_wf(ip: IpAddressV) -> bool {
    match ip {
        IpAddressV::V4(s) => is_ipv4_literal(s),
        IpAddressV::V6(s) => is_ipv6_literal(s),
    }
}

impl IpAddress {
    /// The address literal itself, family left aside.
    pub fn literal(&self) -> (r: &String)
        ensures
            r@ == match self@ {
                IpAddressV::V4(s) => s,
                IpAddressV::V6(s) => s,
            },
    {
        match self {
            IpAddress::V4(s) => s,
            IpAddress::V6(s) => s,
        }
    }

    /// Whether this is an IPv6 address.
    pub fn is_v6(&self) -> (r: bool)
        ensures
            r == (self@ is V6),
    {
        match self {
            IpAddress::V4(_) => false,
            IpAddress::V6(_) => true,
        }
    }
}

/// An IPv4 literal is made of decimal digits and dots alone.
pub proof fn lemma_ipv4_literal_chars(s: Seq<char>, ch: char)
    requires
        is_ipv4_literal(s),
        s.contains(ch),
    ensures
        is_digit_char(ch) || ch == '.',
{
    if ch != '.' {
        lemma_split_chars(s, '.', ch);
        let parts = spec_split(s, '.');
        let i = choose|i: int| 0 <= i < parts.len() && (#[trigger] parts[i]).contains(ch);
        let k = choose|k: int| 0 <= k < parts[i].len() && parts[i][k] == ch;
        assert(is_octet(parts[i]));
        assert(is_digit_char(parts[i][k]));
    }
}

/// An IPv6 literal is made of hexadecimal digits and colons alone.
pub proof fn lemma_ipv6_literal_chars(s: Seq<char>, ch: char)
    requires
        is_ipv6_literal(s),
        s.contains(ch),
    ensures
        is_hex_digit_char(ch) || ch == ':',
{
    if ch != ':' {
        lemma_split_chars(s, ':', ch);
        let parts = spec_split(s, ':');
        let i = choose|i: int| 0 <= i < parts.len() && (#[trigger] parts[i]).contains(ch);
        let k = choose|k: int| 0 <= k < parts[i].len() && parts[i][k] == ch;
        assert(parts[i].len() == 0 || is_hex_group(parts[i]));
        assert(is_hex_digit_char(parts[i][k]));
    }
}

/// Length of one split part, stated over the part list's model.
fn part_len(parts: &Vec<String>, i: usize) -> (l: usize)
    requires
        i < parts.len(),
    ensures
        l == parts.deep_view()[i as int].len(),
{
    proof {
        assert(parts.deep_view()[i as int] == parts@[i as int]@);
    }
    parts[i].as_str().unicode_len()
}

proof fn lemma_dec_val_bounds(s: Seq<char>)
    requires
        forall|i: int| 0 <= i < s.len() ==> is_digit_char(#[trigger] s[i]),
    ensures
        0 <= spec_dec_val(s),
        s.len() <= 1 ==> spec_dec_val(s) < 10,
        s.len() <= 2 ==> spec_dec_val(s) < 100,
        s.len() <= 3 ==> spec_dec_val(s) < 1000,
    decreases s.len(),
{
    if s.len() == 0 {
    } else {
        assert(forall|i: int|
            0 <= i < s.drop_last().len() ==> is_digit_char(#[trigger] s.drop_last()[i]));
        lemma_dec_val_bounds(s.drop_last());
    }
}

/// Check one decimal octet.
fn is_octet_str(s: &str) -> (r: bool)
    ensures
        r == is_octet(s@),
{
    let n = s.unicode_len();
    if n < 1 || n > 3 {
        return false;
    }
    if n > 1 && s.get_char(0) == '0' {
        return false;
    }
    let mut val: u32 = 0;
    let mut i: usize = 0;
    proof {
        assert(s@.subrange(0, 0) =~= Seq::<char>::empty());
    }
    while i < n
        invariant
            0 <= i <= n <= 3,
            n == s@.len(),
            forall|j: int| 0 <= j < i ==> is_digit_char(#[trigger] s@[j]),
            val == spec_dec_val(s@.subrange(0, i as int)),
            val < 1000,
        decreases n - i,
    {
        let c = s.get_char(i);
        let u = c as u32;
        if u < 48 || u > 57 {
            return false;
        }
        proof {
            assert(s@.subrange(0, i + 1).drop_last() =~= s@.subrange(0, i as int));
            assert(forall|j: int| 0 <= j < i + 1 ==> is_digit_char(#[trigger] s@[j]));
            assert(forall|j: int|
                0 <= j < i ==> is_digit_char(#[trigger] s@.subrange(0, i as int)[j]));
            lemma_dec_val_bounds(s@.subrange(0, i as int));
            assert(val < 100);
        }
        val = val * 10 + (u - 48);
        i = i + 1;
    }
    proof {
        assert(s@.subrange(0, n as int) =~= s@);
    }
    val <= 255
}

/// Check one hexadecimal group.
fn is_hex_group_str(s: &str) -> (r: bool)
    ensures
        r == is_hex_group(s@),
{
    let n = s.unicode_len();
    if n < 1 || n > 4 {
        return false;
    }
    let mut i: usize = 0;
    while i < n
        invariant
            0 <= i <= n,
            n == s@.len(),
            forall|j: int| 0 <= j < i ==> is_hex_digit_char(#[trigger] s@[j]),
        decreases n - i,
    {
        let c = s.get_char(i);
        let u = c as u32;
        if !(48 <= u && u <= 57) && !(97 <= u && u <= 102) && !(65 <= u && u <= 70) {
            return false;
        }
        i = i + 1;
    }
    true
}

/// Check a dotted-quad IPv4 literal.
pub fn is_valid_ipv4(s: &str) -> (r: bool)
    ensures
        r == is_ipv4_literal(s@),
{
    let parts = split_str(s, '.');
    if parts.len() != 4 {
        return false;
    }
    let mut i: usize = 0;
    while i < 4
        invariant
            0 <= i <= 4,
            parts.deep_view() == spec_split(s@, '.'),
            parts.len() == 4,
            forall|j: int| 0 <= j < i ==> is_octet(#[trigger] parts.deep_view()[j]),
        decreases 4 - i,
    {
        proof {
            assert(parts.deep_view()[i as int] == parts@[i as int]@);
        }
        if !is_octet_str(parts[i].as_str()) {
            return false;
        }
        i = i + 1;
    }
    true
}

/// Check an IPv6 literal against the library's grammar.
pub fn is_valid_ipv6(s: &str) -> (r: bool)
    ensures
        r == is_ipv6_literal(s@),
{
    let parts = split_str(s, ':');
    let n = parts.len();
    let mut e: usize = 0;
    let mut i: usize = 0;
    proof {
        assert(parts.deep_view().subrange(0, 0) =~= Seq::<Seq<char>>::empty());
    }
    while i < n
        invariant
            0 <= i <= n == parts.len(),
            parts.deep_view() == spec_split(s@, ':'),
            e <= i,
            e == spec_count_empty(parts.deep_view().subrange(0, i as int)),
            forall|j: int|
                0 <= j < i ==> (#[trigger] parts.deep_view()[j]).len() == 0 || is_hex_group(
                    parts.deep_view()[j],
                ),
        decreases n - i,
    {
        proof {
            assert(parts.deep_view().subrange(0, i + 1).drop_last() =~= parts.deep_view()
                .subrange(0, i as int));
            assert(parts.deep_view().subrange(0, i + 1).last() == parts.deep_view()[i as int]);
            assert(parts.deep_view()[i as int] == parts@[i as int]@);
        }
        if part_len(&parts, i) == 0 {
            e = e + 1;
        } else {
            if !is_hex_group_str(parts[i].as_str()) {
                return false;
            }
        }
        i = i + 1;
    }
    proof {
        assert(parts.deep_view().subrange(0, n as int) =~= parts.deep_view());
    }
    if e == 0 {
        n == 8
    } else if e == 1 {
        n <= 8 && part_len(&parts, 0) > 0 && part_len(&parts, n - 1) > 0
    } else if e == 2 {
        if !(3 <= n && n <= 9) {
            return false;
        }
        let leading = part_len(&parts, 0) == 0 && part_len(&parts, 1) == 0;
        let trailing = part_len(&parts, n - 1) == 0 && part_len(&parts, n - 2) == 0;
        if leading {
            let mut ok = true;
            let mut i: usize = 2;
            while i < n
                invariant
                    2 <= i <= n == parts.len(),
                    parts.deep_view() == spec_split(s@, ':'),
                    ok == (forall|j: int|
                        2 <= j < i ==> (#[trigger] parts.deep_view()[j]).len() > 0),
                decreases n - i,
            {
                let li = part_len(&parts, i);
                if li == 0 {
                    ok = false;
                } else {
                    proof {
                        if ok {
                            assert(forall|j: int|
                                2 <= j < i + 1 ==> (#[trigger] parts.deep_view()[j]).len()
                                    > 0);
                        }
                    }
                }
                i = i + 1;
            }
            if ok {
                return true;
            }
        }
        if trailing {
            let mut ok = true;
            let mut i: usize = 0;
            while i < n - 2
                invariant
                    0 <= i <= n - 2,
                    n == parts.len(),
                    3 <= n <= 9,
                    parts.deep_view() == spec_split(s@, ':'),
                    ok == (forall|j: int|
                        0 <= j < i ==> (#[trigger] parts.deep_view()[j]).len() > 0),
                decreases n - 2 - i,
            {
                let li = part_len(&parts, i);
                if li == 0 {
                    ok = false;
                } else {
                    proof {
                        if ok {
                            assert(forall|j: int|
                                0 <= j < i + 1 ==> (#[trigger] parts.deep_view()[j]).len()
                                    > 0);
                        }
                    }
                }
                i = i + 1;
            }
            return ok;
        }
        false
    } else {
        e == 3 && n == 3
    }
}

} // verus!
