//! Splitting and joining of character sequences, with the inverse
//! lemmas the configuration codec relies on.

use vstd::prelude::*;
use vstd::seq_lib::*;
use vstd::string::*;

verus! {

/// Split `s` at every occurrence of `sep`.  The result always has at
/// least one part; the separators themselves are dropped.
pub open spec fn spec_split(s: Seq<char>, sep: char) -> Seq<Seq<char>>
    decreases s.len(),
{
    if s.len() == 0 {
        seq![Seq::<char>::empty()]
    } else if s[0] == sep {
        seq![Seq::<char>::empty()] + spec_split(s.drop_first(), sep)
    } else {
        let rest = spec_split(s.drop_first(), sep);
        seq![seq![s[0]] + rest[0]] + rest.drop_first()
    }
}

/// Concatenate `parts` with `sep` between consecutive parts.
pub open spec fn spec_join(parts: Seq<Seq<char>>, sep: Seq<char>) -> Seq<char>
    decreases parts.len(),
{
    if parts.len() == 0 {
        Seq::<char>::empty()
    } else if parts.len() == 1 {
        parts[0]
    } else {
        parts[0] + sep + spec_join(parts.drop_first(), sep)
    }
}

pub proof fn lemma_split_len(s: Seq<char>, sep: char)
    ensures
        spec_split(s, sep).len() >= 1,
    decreases s.len(),
{
    if s.len() == 0 {
    } else {
        lemma_split_len(s.drop_first(), sep);
    }
}

/// A sequence free of the separator splits into itself alone.
pub proof fn lemma_split_no_sep(s: Seq<char>, sep: char)
    requires
        !s.contains(sep),
    ensures
        spec_split(s, sep) =~= seq![s],
    decreases s.len(),
{
    if s.len() == 0 {
        assert(s =~= Seq::<char>::empty());
        assert(spec_split(s, sep) =~= seq![s]);
    } else {
        assert(s[0] != sep);
        assert(!s.drop_first().contains(sep)) by {
            if s.drop_first().contains(sep) {
                let i = choose|i: int|
                    0 <= i < s.drop_first().len() && s.drop_first()[i] == sep;
                assert(s[i + 1] == sep);
            }
        }
        lemma_split_no_sep(s.drop_first(), sep);
        assert(spec_split(s, sep) =~= seq![seq![s[0]] + s.drop_first()]);
        assert(seq![s[0]] + s.drop_first() =~= s);
        assert(spec_split(s, sep) =~= seq![s]);
    }
}

/// Splitting `a ++ [sep] ++ t` peels off `a` when `a` is free of the
/// separator.
pub proof fn lemma_split_sep_head(a: Seq<char>, t: Seq<char>, sep: char)
    requires
        !a.contains(sep),
    ensures
        spec_split(a + seq![sep] + t, sep) =~= seq![a] + spec_split(t, sep),
    decreases a.len(),
{
    let s = a + seq![sep] + t;
    if a.len() == 0 {
        assert(s[0] == sep);
        assert(s.drop_first() =~= t);
        assert(spec_split(s, sep) =~= seq![Seq::<char>::empty()] + spec_split(t, sep));
        assert(a =~= Seq::<char>::empty());
        assert(seq![Seq::<char>::empty()] =~= seq![a]);
    } else {
        assert(s[0] == a[0]);
        assert(s[0] != sep);
        let a1 = a.drop_first();
        assert(!a1.contains(sep)) by {
            if a1.contains(sep) {
                let i = choose|i: int| 0 <= i < a1.len() && a1[i] == sep;
                assert(a[i + 1] == sep);
            }
        }
        lemma_split_sep_head(a1, t, sep);
        assert(s.drop_first() =~= a1 + seq![sep] + t);
        let rest = spec_split(a1 + seq![sep] + t, sep);
        assert(rest =~= seq![a1] + spec_split(t, sep));
        lemma_split_len(t, sep);
        assert(rest[0] == a1);
        assert(rest.drop_first() =~= spec_split(t, sep));
        assert(seq![s[0]] + rest[0] =~= a);
        assert(spec_split(s, sep) =~= seq![a] + spec_split(t, sep));
    }
}

/// Every character other than the separator survives the split: it
/// sits inside one of the parts.
pub proof fn lemma_split_chars(s: Seq<char>, sep: char, ch: char)
    requires
        s.contains(ch),
        ch != sep,
    ensures
        exists|i: int|
            0 <= i < spec_split(s, sep).len() && (#[trigger] spec_split(s, sep)[i]).contains(
                ch,
            ),
    decreases s.len(),
{
    let parts = spec_split(s, sep);
    let j = choose|j: int| 0 <= j < s.len() && s[j] == ch;
    if s[0] == sep {
        assert(j > 0);
        assert(s.drop_first()[j - 1] == ch);
        assert(s.drop_first().contains(ch));
        lemma_split_chars(s.drop_first(), sep, ch);
        let i = choose|i: int|
            0 <= i < spec_split(s.drop_first(), sep).len() && (#[trigger] spec_split(
                s.drop_first(),
                sep,
            )[i]).contains(ch);
        assert(parts[i + 1] == spec_split(s.drop_first(), sep)[i]);
    } else {
        let rest = spec_split(s.drop_first(), sep);
        lemma_split_len(s.drop_first(), sep);
        if j == 0 {
            assert(parts[0] == seq![s[0]] + rest[0]);
            assert((seq![s[0]] + rest[0])[0] == ch);
            assert(parts[0].contains(ch));
        } else {
            assert(s.drop_first()[j - 1] == ch);
            assert(s.drop_first().contains(ch));
            lemma_split_chars(s.drop_first(), sep, ch);
            let i = choose|i: int|
                0 <= i < rest.len() && (#[trigger] rest[i]).contains(ch);
            if i == 0 {
                let k = choose|k: int| 0 <= k < rest[0].len() && rest[0][k] == ch;
                assert((seq![s[0]] + rest[0])[k + 1] == ch);
                assert(parts[0].contains(ch));
            } else {
                assert(parts[i] == rest.drop_first()[i - 1]);
                assert(parts[i] == rest[i]);
            }
        }
    }
}

/// No part of a split contains the separator.
pub proof fn lemma_split_parts_no_sep(s: Seq<char>, sep: char)
    ensures
        forall|i: int|
            0 <= i < spec_split(s, sep).len() ==> !(#[trigger] spec_split(s, sep)[i]).contains(
                sep,
            ),
    decreases s.len(),
{
    let parts = spec_split(s, sep);
    if s.len() == 0 {
        assert(forall|i: int| 0 <= i < parts.len() ==> !parts[i].contains(sep)) by {
            assert(parts[0].len() == 0);
            if parts[0].contains(sep) {
                let j = choose|j: int| 0 <= j < parts[0].len() && parts[0][j] == sep;
            }
        }
    } else if s[0] == sep {
        lemma_split_parts_no_sep(s.drop_first(), sep);
        let rest = spec_split(s.drop_first(), sep);
        assert(forall|i: int| 0 <= i < parts.len() ==> !(#[trigger] parts[i]).contains(sep))
            by {
            assert(forall|i: int| 1 <= i < parts.len() ==> parts[i] == rest[i - 1]);
            assert(parts[0].len() == 0);
            if parts[0].contains(sep) {
                let j = choose|j: int| 0 <= j < parts[0].len() && parts[0][j] == sep;
            }
        }
    } else {
        lemma_split_parts_no_sep(s.drop_first(), sep);
        let rest = spec_split(s.drop_first(), sep);
        lemma_split_len(s.drop_first(), sep);
        assert(!(seq![s[0]] + rest[0]).contains(sep)) by {
            if (seq![s[0]] + rest[0]).contains(sep) {
                let j = choose|j: int|
                    0 <= j < (seq![s[0]] + rest[0]).len() && (seq![s[0]] + rest[0])[j] == sep;
                if j > 0 {
                    assert(rest[0][j - 1] == sep);
                }
            }
        }
        assert(forall|i: int| 0 <= i < parts.len() ==> !(#[trigger] parts[i]).contains(sep))
            by {
            assert(parts[0] == seq![s[0]] + rest[0]);
            assert(forall|i: int| 1 <= i < parts.len() ==> parts[i] == rest[i]);
        }
    }
}

/// A subrange of a sequence free of a character stays free of it.
pub proof fn lemma_subrange_keeps_absence(s: Seq<char>, a: int, b: int, ch: char)
    requires
        0 <= a <= b <= s.len(),
        !s.contains(ch),
    ensures
        !s.subrange(a, b).contains(ch),
{
    if s.subrange(a, b).contains(ch) {
        let j = choose|j: int| 0 <= j < s.subrange(a, b).len() && s.subrange(a, b)[j] == ch;
        assert(s[a + j] == ch);
    }
}

/// Index of the first occurrence of `c` in `s`, if any.
pub open spec fn spec_find_char(s: Seq<char>, c: char) -> Option<int>
    decreases s.len(),
{
    if s.len() == 0 {
        Option::None
    } else if s[0] == c {
        Option::Some(0)
    } else {
        match spec_find_char(s.drop_first(), c) {
            Option::None => Option::None,
            Option::Some(i) => Option::Some(i + 1),
        }
    }
}

/// What `spec_find_char` returns, characterised without recursion.
pub proof fn lemma_find_char(s: Seq<char>, c: char)
    ensures
        match spec_find_char(s, c) {
            Option::None => !s.contains(c),
            Option::Some(i) => 0 <= i < s.len() && s[i] == c && !s.subrange(0, i).contains(c),
        },
    decreases s.len(),
{
    if s.len() == 0 {
    } else if s[0] == c {
    } else {
        lemma_find_char(s.drop_first(), c);
        match spec_find_char(s.drop_first(), c) {
            Option::None => {
                if s.contains(c) {
                    let i = choose|i: int| 0 <= i < s.len() && s[i] == c;
                    assert(i != 0);
                    assert(s.drop_first()[i - 1] == c);
                }
            },
            Option::Some(i) => {
                assert(s[i + 1] == s.drop_first()[i]);
                let pre = s.subrange(0, i + 1);
                if pre.contains(c) {
                    let j = choose|j: int| 0 <= j < pre.len() && pre[j] == c;
                    assert(j != 0);
                    assert(s.drop_first().subrange(0, i)[j - 1] == c);
                }
            },
        }
    }
}

/// The first occurrence is unique: a hit with a clean prefix pins it.
pub proof fn lemma_find_char_is(s: Seq<char>, c: char, i: int)
    requires
        0 <= i < s.len(),
        s[i] == c,
        !s.subrange(0, i).contains(c),
    ensures
        spec_find_char(s, c) == Option::Some(i),
    decreases s.len(),
{
    if i == 0 {
    } else {
        assert(s[0] != c) by {
            assert(s.subrange(0, i)[0] == s[0]);
        }
        assert(s.drop_first()[i - 1] == c);
        assert(!s.drop_first().subrange(0, i - 1).contains(c)) by {
            let pre1 = s.drop_first().subrange(0, i - 1);
            if pre1.contains(c) {
                let j = choose|j: int| 0 <= j < pre1.len() && pre1[j] == c;
                assert(s.subrange(0, i)[j + 1] == c);
            }
        }
        lemma_find_char_is(s.drop_first(), c, i - 1);
    }
}

/// Find the first occurrence of `c` in `s`.
pub fn find_char(s: &str, c: char) -> (r: Option<usize>)
    ensures
        r == match spec_find_char(s@, c) {
            Option::None => Option::<usize>::None,
            Option::Some(i) => Option::Some(i as usize),
        },
{
    let n = s.unicode_len();
    let mut i: usize = 0;
    proof {
        lemma_find_char(s@, c);
    }
    while i < n
        invariant
            0 <= i <= n,
            n == s@.len(),
            !s@.subrange(0, i as int).contains(c),
        decreases n - i,
    {
        if s.get_char(i) == c {
            proof {
                lemma_find_char_is(s@, c, i as int);
            }
            return Some(i);
        }
        proof {
            let pre = s@.subrange(0, i + 1 as int);
            if pre.contains(c) {
                let j = choose|j: int| 0 <= j < pre.len() && pre[j] == c;
                assert(s@.subrange(0, i as int)[j] == c);
            }
        }
        i = i + 1;
    }
    proof {
        assert(s@.subrange(0, n as int) =~= s@);
        lemma_find_char(s@, c);
    }
    None
}

/// Split `s` at every occurrence of `c`.
pub fn split_str(s: &str, c: char) -> (r: Vec<String>)
    ensures
        r.deep_view() == spec_split(s@, c),
{
    let n = s.unicode_len();
    let mut r: Vec<String> = Vec::new();
    let mut start: usize = 0;
    let mut i: usize = 0;
    proof {
        assert(s@.subrange(0, n as int) =~= s@);
        assert(r.deep_view() =~= Seq::<Seq<char>>::empty());
        assert(r.deep_view() + spec_split(s@, c) =~= spec_split(s@, c));
    }
    while i < n
        invariant
            0 <= start <= i <= n,
            n == s@.len(),
            !s@.subrange(start as int, i as int).contains(c),
            spec_split(s@, c) == r.deep_view() + spec_split(
                s@.subrange(start as int, n as int),
                c,
            ),
        decreases n - i,
    {
        if s.get_char(i) == c {
            let part = s.substring_char(start, i).to_owned();
            proof {
                let tail = s@.subrange(start as int, n as int);
                let a = s@.subrange(start as int, i as int);
                let t = s@.subrange(i + 1 as int, n as int);
                assert(tail =~= a + seq![c] + t);
                lemma_split_sep_head(a, t, c);
                assert(spec_split(tail, c) =~= seq![a] + spec_split(t, c));
            }
            r.push(part);
            proof {
                assert(r.deep_view() =~= r.deep_view().drop_last() + seq![
                    s@.subrange(start as int, i as int),
                ]);
                assert(spec_split(s@, c) == r.deep_view() + spec_split(
                    s@.subrange(i + 1 as int, n as int),
                    c,
                ));
            }
            start = i + 1;
        } else {
            proof {
                let pre = s@.subrange(start as int, i + 1 as int);
                if pre.contains(c) {
                    let j = choose|j: int| 0 <= j < pre.len() && pre[j] == c;
                    if j < pre.len() - 1 {
                        assert(s@.subrange(start as int, i as int)[j] == c);
                    }
                }
            }
        }
        i = i + 1;
    }
    let part = s.substring_char(start, n).to_owned();
    proof {
        lemma_split_no_sep(s@.subrange(start as int, n as int), c);
    }
    r.push(part);
    proof {
        assert(r.deep_view() =~= r.deep_view().drop_last() + seq![
            s@.subrange(start as int, n as int),
        ]);
        assert(r.deep_view() == spec_split(s@, c));
    }
    r
}

/// Character-wise string equality.
pub fn str_eq(a: &str, b: &str) -> (r: bool)
    ensures
        r == (a@ == b@),
{
    let sa = a.to_owned();
    let sb = b.to_owned();
    sa == sb
}

/// Join `parts` with `sep` between consecutive parts.
pub fn join_strs(parts: &Vec<String>, sep: &str) -> (r: String)
    ensures
        r@ == spec_join(parts.deep_view(), sep@),
{
    let mut r = String::new();
    let n = parts.len();
    if n == 0 {
        return r;
    }
    let mut i: usize = 0;
    proof {
        assert(parts.deep_view().subrange(0, n as int) =~= parts.deep_view());
        assert(r@ + spec_join(parts.deep_view(), sep@) =~= spec_join(parts.deep_view(), sep@));
    }
    while i < n
        invariant
            0 < n == parts.len(),
            0 <= i <= n,
            spec_join(parts.deep_view(), sep@) == r@ + spec_join(
                parts.deep_view().subrange(i as int, n as int),
                sep@,
            ),
        decreases n - i,
    {
        proof {
            let remaining = parts.deep_view().subrange(i as int, n as int);
            assert(remaining[0] == parts.deep_view()[i as int]);
            if i + 1 < n {
                assert(remaining.drop_first() =~= parts.deep_view().subrange(
                    i + 1 as int,
                    n as int,
                ));
            } else {
                assert(remaining.len() == 1);
            }
        }
        r.append(parts[i].as_str());
        if i + 1 < n {
            r.append(sep);
        }
        i = i + 1;
    }
    proof {
        assert(parts.deep_view().subrange(n as int, n as int) =~= Seq::<Seq<char>>::empty());
    }
    r
}

} // verus!
