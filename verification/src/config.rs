//! Configuration model: the domain/token list, its validity, and the
//! permission gate that must pass before any file content is parsed.

use vstd::prelude::*;
use vstd::seq_lib::*;
use vstd::string::*;
use crate::ipaddr::{is_ipv4_literal, is_ipv6_literal, is_valid_ipv4, is_valid_ipv6};
use crate::text::{
    lemma_find_char, lemma_find_char_is, lemma_split_len, lemma_split_parts_no_sep,
    lemma_split_sep_head, lemma_subrange_keeps_absence, spec_find_char, spec_split,
    find_char, split_str, str_eq,
};

verus! {

/// Errors raised while locating, gating, or decoding the configuration.
#[derive(Debug)]
pub enum ConfigError {
    /// No configuration file exists at any candidate location.
    ConfigNotFound,
    /// The file's permission bits (masked to the low nine) are not 0o600.
    InsecurePermissions(u32),
    /// The file content is not a well-formed configuration document.
    ConfigParseError(String),
}

/// How the address published for a domain is chosen.
#[derive(Debug)]
pub enum Ip {
    /// Discover the public address at run time.
    Public,
    /// Publish this fixed IPv4 literal.
    IPv4(String),
    /// Publish this fixed IPv6 literal.
    IPv6(String),
}

/// One domain/token pair with its address selection.
#[derive(Debug)]
pub struct Domain {
    pub name: String,
    pub token: String,
    pub ip: Option<Ip>,
}

/// Ordered list of domains; file order drives processing order.
#[derive(Debug)]
pub struct Config {
    pub domains: Vec<Domain>,
}

/// Mathematical model of an address selection.
#[verifier::ext_equal]
pub enum IpV {
    Public,
    IPv4(Seq<char>),
    IPv6(Seq<char>),
}

/// Mathematical model of one domain entry.
#[verifier::ext_equal]
pub struct DomainV {
    pub name: Seq<char>,
    pub token: Seq<char>,
    pub ip: Option<IpV>,
}

impl View for Ip {
    type V = IpV;

    open spec fn view(&self) -> IpV {
        match self {
            Ip::Public => IpV::Public,
            Ip::IPv4(s) => IpV::IPv4(s@),
            Ip::IPv6(s) => IpV::IPv6(s@),
        }
    }
}

impl View for Domain {
    type V = DomainV;

    open spec fn view(&self) -> DomainV {
        DomainV {
            name: self.name@,
            token: self.token@,
            ip: match self.ip {
                Option::None => Option::None,
                Option::Some(ip) => Option::Some(ip@),
            },
        }
    }
}

impl DeepView for Ip {
    type V = IpV;

    open spec fn deep_view(&self) -> IpV {
        self.view()
    }
}

impl DeepView for Domain {
    type V = DomainV;

    open spec fn deep_view(&self) -> DomainV {
        self.view()
    }
}

impl View for Config {
    type V = Seq<DomainV>;

    open spec fn view(&self) -> Seq<DomainV> {
        self.domains.deep_view()
    }
}

impl Config {
    /// The permission check: only owner-read-write (0o600) may pass,
    /// a hard requirement because the entries carry credentials.
    pub fn check_secure_file_mode(mode: u32) -> (r: Result<(), ConfigError>)
        ensures
            r is Ok <==> mode & 0o777 == 0o600,
            r is Err ==> (r matches Err(ConfigError::InsecurePermissions(m)) && m == mode
                & 0o777),
    {
        let masked = mode & 0o777;
        if masked == 0o600 {
            Ok(())
        } else {
            Err(ConfigError::InsecurePermissions(masked))
        }
    }

    /// The candidate path inside the user's home directory.
    pub fn user_config_path(home: &str) -> (r: String)
        ensures
            r@ == home@ + "/.config/ducksync/config.yaml"@,
    {
        let mut r = home.to_owned();
        r.append("/.config/ducksync/config.yaml");
        r
    }

    /// The fixed system-wide candidate path.
    pub fn system_config_path() -> (r: String)
        ensures
            r@ == "/etc/ducksync/config.yaml"@,
    {
        "/etc/ducksync/config.yaml".to_owned()
    }

    /// Resolve the file to load, by strict priority: an explicit path
    /// argument, then the user path where one exists, then the system
    /// path where it exists; otherwise the configuration is missing.
    pub fn get_config_path(
        custom: Option<String>,
        home: Option<String>,
        user_exists: bool,
        system_exists: bool,
    ) -> (r: Result<String, ConfigError>)
        ensures
            match custom {
                Option::Some(p) => r matches Result::Ok(q) && q@ == p@,
                Option::None => match home {
                    Option::None => r matches Result::Err(ConfigError::ConfigNotFound),
                    Option::Some(h) => if user_exists {
                        r matches Result::Ok(q) && q@ == h@ + "/.config/ducksync/config.yaml"@
                    } else if system_exists {
                        r matches Result::Ok(q) && q@ == "/etc/ducksync/config.yaml"@
                    } else {
                        r matches Result::Err(ConfigError::ConfigNotFound)
                    },
                },
            },
    {
        match custom {
            Option::Some(p) => Result::Ok(p),
            Option::None => match home {
                Option::None => Result::Err(ConfigError::ConfigNotFound),
                Option::Some(h) => if user_exists {
                    Result::Ok(Self::user_config_path(h.as_str()))
                } else if system_exists {
                    Result::Ok(Self::system_config_path())
                } else {
                    Result::Err(ConfigError::ConfigNotFound)
                },
            },
        }
    }
}

// ---------------------------------------------------------------------
// The configuration document grammar.
//
// A document is a sequence of newline-terminated lines: a `domains:`
// header, then per domain one line `- <key>: <value>` followed by
// continuation lines `  <key>: <value>`.  The keys `name` and `token`
// (required) and `ip` (optional) may come in any order; the `ip` value
// is `public`, `{v4: <literal>}` or `{v6: <literal>}`.
// ---------------------------------------------------------------------

pub open spec fn header_chars() -> Seq<char> {
    seq!['d', 'o', 'm', 'a', 'i', 'n', 's', ':']
}

pub open spec fn key_name_chars() -> Seq<char> {
    seq!['n', 'a', 'm', 'e']
}

pub open spec fn key_token_chars() -> Seq<char> {
    seq!['t', 'o', 'k', 'e', 'n']
}

pub open spec fn key_ip_chars() -> Seq<char> {
    seq!['i', 'p']
}

pub open spec fn public_chars() -> Seq<char> {
    seq!['p', 'u', 'b', 'l', 'i', 'c']
}

pub open spec fn open_v4_chars() -> Seq<char> {
    seq!['{', 'v', '4', ':', ' ']
}

pub open spec fn open_v6_chars() -> Seq<char> {
    seq!['{', 'v', '6', ':', ' ']
}

/// The document's lines: split at `\n`, one trailing empty segment
/// (from a final newline) dropped.
pub open spec fn spec_doc_lines(s: Seq<char>) -> Seq<Seq<char>> {
    let parts = spec_split(s, '\n');
    if parts.len() >= 1 && parts.last().len() == 0 {
        parts.drop_last()
    } else {
        parts
    }
}

/// A line opening a new entry: `- ` then its first key/value.
pub open spec fn is_entry_start(l: Seq<char>) -> bool {
    l.len() >= 2 && l[0] == '-' && l[1] == ' '
}

/// A line continuing the current entry: two spaces then a key/value.
pub open spec fn is_continuation(l: Seq<char>) -> bool {
    l.len() >= 2 && l[0] == ' ' && l[1] == ' '
}

/// Number of continuation lines at the front of `lines`.
pub open spec fn spec_cont_count(lines: Seq<Seq<char>>) -> nat
    decreases lines.len(),
{
    if lines.len() == 0 {
        0
    } else if is_continuation(lines[0]) {
        1 + spec_cont_count(lines.drop_first())
    } else {
        0
    }
}

/// Key and value of a stripped line: the key before the first `:`,
/// one space, then the value verbatim.
pub open spec fn spec_parse_kv(line: Seq<char>) -> Option<(Seq<char>, Seq<char>)> {
    match spec_find_char(line, ':') {
        Option::None => Option::None,
        Option::Some(i) => if i + 1 < line.len() && line[i + 1] == ' ' {
            Option::Some((line.subrange(0, i), line.subrange(i + 2, line.len() as int)))
        } else {
            Option::None
        },
    }
}

/// An `ip` value: `public`, or a braced fixed literal of one family.
pub open spec fn spec_parse_ip_value(v: Seq<char>) -> Option<IpV> {
    if v == public_chars() {
        Option::Some(IpV::Public)
    } else if v.len() >= 6 && v.subrange(0, 5) == open_v4_chars() && v.last() == '}'
        && is_ipv4_literal(v.subrange(5, v.len() - 1)) {
        Option::Some(IpV::IPv4(v.subrange(5, v.len() - 1)))
    } else if v.len() >= 6 && v.subrange(0, 5) == open_v6_chars() && v.last() == '}'
        && is_ipv6_literal(v.subrange(5, v.len() - 1)) {
        Option::Some(IpV::IPv6(v.subrange(5, v.len() - 1)))
    } else {
        Option::None
    }
}

/// Partially assembled entry while its lines are folded.
#[verifier::ext_equal]
pub struct EntryAcc {
    pub name: Option<Seq<char>>,
    pub token: Option<Seq<char>>,
    pub ip: Option<IpV>,
}

/// Fold one entry's lines into an accumulator, rejecting unknown and
/// repeated keys and empty names or tokens.
pub open spec fn spec_entry_fold(group: Seq<Seq<char>>, acc: EntryAcc) -> Option<EntryAcc>
    decreases group.len(),
{
    if group.len() == 0 {
        Option::Some(acc)
    } else {
        let l = group[0];
        if l.len() < 2 {
            Option::None
        } else {
            match spec_parse_kv(l.subrange(2, l.len() as int)) {
                Option::None => Option::None,
                Option::Some(kv) => {
                    let k = kv.0;
                    let v = kv.1;
                    if k == key_name_chars() {
                        if acc.name is Some || v.len() == 0 {
                            Option::None
                        } else {
                            spec_entry_fold(
                                group.drop_first(),
                                EntryAcc { name: Option::Some(v), ..acc },
                            )
                        }
                    } else if k == key_token_chars() {
                        if acc.token is Some || v.len() == 0 {
                            Option::None
                        } else {
                            spec_entry_fold(
                                group.drop_first(),
                                EntryAcc { token: Option::Some(v), ..acc },
                            )
                        }
                    } else if k == key_ip_chars() {
                        if acc.ip is Some {
                            Option::None
                        } else {
                            match spec_parse_ip_value(v) {
                                Option::None => Option::None,
                                Option::Some(ip) => spec_entry_fold(
                                    group.drop_first(),
                                    EntryAcc { ip: Option::Some(ip), ..acc },
                                ),
                            }
                        }
                    } else {
                        Option::None
                    }
                },
            }
        }
    }
}

/// Parse one entry's lines; `name` and `token` must both be present.
pub open spec fn spec_parse_entry(group: Seq<Seq<char>>) -> Option<DomainV> {
    match spec_entry_fold(
        group,
        EntryAcc { name: Option::None, token: Option::None, ip: Option::None },
    ) {
        Option::None => Option::None,
        Option::Some(acc) => match (acc.name, acc.token) {
            (Option::Some(n), Option::Some(t)) => Option::Some(
                DomainV { name: n, token: t, ip: acc.ip },
            ),
            _ => Option::None,
        },
    }
}

/// Parse the lines after the header into the domain list, grouping
/// each entry-start line with its continuation lines.
pub open spec fn spec_parse_entries(lines: Seq<Seq<char>>) -> Option<Seq<DomainV>>
    decreases lines.len(),
{
    if lines.len() == 0 {
        Option::Some(Seq::<DomainV>::empty())
    } else if !is_entry_start(lines[0]) {
        Option::None
    } else {
        let cc = spec_cont_count(lines.drop_first());
        let k: int = if 1 + cc <= lines.len() {
            1 + cc as int
        } else {
            lines.len() as int
        };
        match spec_parse_entry(lines.subrange(0, k)) {
            Option::None => Option::None,
            Option::Some(d) => match spec_parse_entries(lines.subrange(k, lines.len() as int)) {
                Option::None => Option::None,
                Option::Some(rest) => Option::Some(seq![d] + rest),
            },
        }
    }
}

/// Parse a whole document.
pub open spec fn spec_parse_config(s: Seq<char>) -> Option<Seq<DomainV>> {
    let lines = spec_doc_lines(s);
    if lines.len() < 1 || lines[0] != header_chars() {
        Option::None
    } else {
        spec_parse_entries(lines.drop_first())
    }
}

// ---------------------------------------------------------------------
// Encoding.
// ---------------------------------------------------------------------

pub open spec fn spec_encode_ip_value(ip: IpV) -> Seq<char> {
    match ip {
        IpV::Public => public_chars(),
        IpV::IPv4(l) => open_v4_chars() + l + seq!['}'],
        IpV::IPv6(l) => open_v6_chars() + l + seq!['}'],
    }
}

/// The two or three lines one domain encodes to.
pub open spec fn spec_encode_domain_lines(d: DomainV) -> Seq<Seq<char>> {
    let l1 = seq!['-', ' '] + key_name_chars() + seq![':', ' '] + d.name;
    let l2 = seq![' ', ' '] + key_token_chars() + seq![':', ' '] + d.token;
    match d.ip {
        Option::None => seq![l1, l2],
        Option::Some(ip) => seq![
            l1,
            l2,
            seq![' ', ' '] + key_ip_chars() + seq![':', ' '] + spec_encode_ip_value(ip),
        ],
    }
}

pub open spec fn spec_encode_entries_lines(c: Seq<DomainV>) -> Seq<Seq<char>>
    decreases c.len(),
{
    if c.len() == 0 {
        Seq::<Seq<char>>::empty()
    } else {
        spec_encode_domain_lines(c[0]) + spec_encode_entries_lines(c.drop_first())
    }
}

/// Concatenate lines, each terminated by a newline.
pub open spec fn spec_unlines(ls: Seq<Seq<char>>) -> Seq<char>
    decreases ls.len(),
{
    if ls.len() == 0 {
        Seq::<char>::empty()
    } else {
        ls[0] + seq!['\n'] + spec_unlines(ls.drop_first())
    }
}

/// Encode a whole document.
pub open spec fn spec_encode_config(c: Seq<DomainV>) -> Seq<char> {
    spec_unlines(seq![header_chars()] + spec_encode_entries_lines(c))
}

// ---------------------------------------------------------------------
// Well-formedness: the configurations the codec round-trips.
// ---------------------------------------------------------------------

/// What an address selection asks of its literal.
pub open spec fn ip_sel_wf(ip: IpV) -> bool {
    match ip {
        IpV::Public => true,
        IpV::IPv4(l) => is_ipv4_literal(l),
        IpV::IPv6(l) => is_ipv6_literal(l),
    }
}

/// Names and tokens are non-empty single-line text; fixed literals
/// match their family's grammar.
pub open spec fn domain_wf(d: DomainV) -> bool {
    &&& d.name.len() > 0 && !d.name.contains('\n')
    &&& d.token.len() > 0 && !d.token.contains('\n')
    &&& match d.ip {
        Option::None => true,
        Option::Some(ip) => ip_sel_wf(ip),
    }
}

pub open spec fn config_wf(c: Seq<DomainV>) -> bool {
    forall|i: int| 0 <= i < c.len() ==> domain_wf(#[trigger] c[i])
}

// ---------------------------------------------------------------------
// The codec round trip: parsing undoes encoding.
// ---------------------------------------------------------------------

proof fn lemma_unlines_split(ls: Seq<Seq<char>>)
    requires
        forall|i: int| 0 <= i < ls.len() ==> !(#[trigger] ls[i]).contains('\n'),
    ensures
        spec_split(spec_unlines(ls), '\n') =~= ls + seq![Seq::<char>::empty()],
    decreases ls.len(),
{
    if ls.len() == 0 {
        assert(spec_unlines(ls) =~= Seq::<char>::empty());
    } else {
        let rest = ls.drop_first();
        assert(forall|i: int| 0 <= i < rest.len() ==> !(#[trigger] rest[i]).contains('\n'))
            by {
            assert(forall|i: int| 0 <= i < rest.len() ==> rest[i] == ls[i + 1]);
        }
        lemma_unlines_split(rest);
        lemma_split_sep_head(ls[0], spec_unlines(rest), '\n');
        assert(spec_split(spec_unlines(ls), '\n') =~= seq![ls[0]] + (rest + seq![
            Seq::<char>::empty(),
        ]));
    }
}

proof fn lemma_doc_lines_unlines(ls: Seq<Seq<char>>)
    requires
        forall|i: int| 0 <= i < ls.len() ==> !(#[trigger] ls[i]).contains('\n'),
    ensures
        spec_doc_lines(spec_unlines(ls)) == ls,
{
    lemma_unlines_split(ls);
    let parts = spec_split(spec_unlines(ls), '\n');
    assert(parts.last().len() == 0);
    assert(parts.drop_last() =~= ls);
}

proof fn lemma_parse_kv_encoded(key: Seq<char>, v: Seq<char>)
    requires
        !key.contains(':'),
    ensures
        spec_parse_kv(key + seq![':', ' '] + v) == Option::Some((key, v)),
{
    let line = key + seq![':', ' '] + v;
    let i = key.len() as int;
    assert(line[i] == ':');
    assert(line.subrange(0, i) =~= key);
    lemma_find_char_is(line, ':', i);
    assert(line[i + 1] == ' ');
    assert(line.subrange(i + 2, line.len() as int) =~= v);
}

proof fn lemma_ip_value_round_trip(ip: IpV)
    requires
        match ip {
            IpV::Public => true,
            IpV::IPv4(l) => is_ipv4_literal(l),
            IpV::IPv6(l) => is_ipv6_literal(l),
        },
    ensures
        spec_parse_ip_value(spec_encode_ip_value(ip)) == Option::Some(ip),
{
    match ip {
        IpV::Public => {},
        IpV::IPv4(l) => {
            let v = open_v4_chars() + l + seq!['}'];
            assert(v[0] == '{');
            assert(v != public_chars());
            assert(v.len() >= 6);
            assert(v.subrange(0, 5) =~= open_v4_chars());
            assert(v.last() == '}');
            assert(v.subrange(5, v.len() - 1) =~= l);
        },
        IpV::IPv6(l) => {
            let v = open_v6_chars() + l + seq!['}'];
            assert(v[0] == '{');
            assert(v != public_chars());
            assert(v[2] == '6');
            assert(v.subrange(0, 5) != open_v4_chars()) by {
                assert(v.subrange(0, 5)[2] == '6');
            }
            assert(v.len() >= 6);
            assert(v.subrange(0, 5) =~= open_v6_chars());
            assert(v.last() == '}');
            assert(v.subrange(5, v.len() - 1) =~= l);
        },
    }
}

proof fn lemma_parse_encoded_entry(d: DomainV)
    requires
        domain_wf(d),
    ensures
        spec_parse_entry(spec_encode_domain_lines(d)) == Option::Some(d),
{
    let ed = spec_encode_domain_lines(d);
    let l1 = seq!['-', ' '] + key_name_chars() + seq![':', ' '] + d.name;
    let l2 = seq![' ', ' '] + key_token_chars() + seq![':', ' '] + d.token;
    let acc0 = EntryAcc { name: Option::None, token: Option::None, ip: Option::None };
    let acc1 = EntryAcc { name: Option::Some(d.name), token: Option::None, ip: Option::None };
    let acc2 = EntryAcc {
        name: Option::Some(d.name),
        token: Option::Some(d.token),
        ip: Option::None,
    };

    assert(!key_name_chars().contains(':')) by {
        if key_name_chars().contains(':') {
            let j = choose|j: int|
                0 <= j < key_name_chars().len() && key_name_chars()[j] == ':';
        }
    }
    assert(!key_token_chars().contains(':')) by {
        if key_token_chars().contains(':') {
            let j = choose|j: int|
                0 <= j < key_token_chars().len() && key_token_chars()[j] == ':';
        }
    }
    assert(!key_ip_chars().contains(':')) by {
        if key_ip_chars().contains(':') {
            let j = choose|j: int| 0 <= j < key_ip_chars().len() && key_ip_chars()[j] == ':';
        }
    }

    // First line carries the name.
    assert(ed[0] == l1);
    assert(l1.len() >= 2);
    assert(l1.subrange(2, l1.len() as int) =~= key_name_chars() + seq![':', ' '] + d.name);
    lemma_parse_kv_encoded(key_name_chars(), d.name);
    assert(spec_parse_kv(l1.subrange(2, l1.len() as int)) == Option::Some(
        (key_name_chars(), d.name),
    ));

    // Second line carries the token.
    assert(ed[1] == l2);
    assert(l2.len() >= 2);
    assert(l2.subrange(2, l2.len() as int) =~= key_token_chars() + seq![':', ' '] + d.token);
    lemma_parse_kv_encoded(key_token_chars(), d.token);
    assert(spec_parse_kv(l2.subrange(2, l2.len() as int)) == Option::Some(
        (key_token_chars(), d.token),
    ));
    assert(key_token_chars() != key_name_chars());

    match d.ip {
        Option::None => {
            assert(ed =~= seq![l1, l2]);
            assert(ed.drop_first() =~= seq![l2]);
            assert(seq![l2].drop_first() =~= Seq::<Seq<char>>::empty());
            assert(spec_entry_fold(ed, acc0) == spec_entry_fold(ed.drop_first(), acc1));
            assert(spec_entry_fold(seq![l2], acc1) == spec_entry_fold(
                seq![l2].drop_first(),
                acc2,
            ));
            assert(spec_entry_fold(Seq::<Seq<char>>::empty(), acc2) == Option::Some(acc2));
            assert(spec_parse_entry(ed) == Option::Some(
                DomainV { name: d.name, token: d.token, ip: Option::None },
            ));
            assert(DomainV { name: d.name, token: d.token, ip: Option::None } =~= d);
        },
        Option::Some(ip) => {
            let l3 = seq![' ', ' '] + key_ip_chars() + seq![':', ' '] + spec_encode_ip_value(
                ip,
            );
            let acc3 = EntryAcc {
                name: Option::Some(d.name),
                token: Option::Some(d.token),
                ip: Option::Some(ip),
            };
            assert(ed =~= seq![l1, l2, l3]);
            assert(ed[2] == l3);
            assert(l3.len() >= 2);
            assert(l3.subrange(2, l3.len() as int) =~= key_ip_chars() + seq![':', ' ']
                + spec_encode_ip_value(ip));
            lemma_parse_kv_encoded(key_ip_chars(), spec_encode_ip_value(ip));
            assert(spec_parse_kv(l3.subrange(2, l3.len() as int)) == Option::Some(
                (key_ip_chars(), spec_encode_ip_value(ip)),
            ));
            assert(key_ip_chars() != key_name_chars());
            assert(key_ip_chars() != key_token_chars());
            lemma_ip_value_round_trip(ip);

            assert(ed.drop_first() =~= seq![l2, l3]);
            assert(seq![l2, l3].drop_first() =~= seq![l3]);
            assert(seq![l3].drop_first() =~= Seq::<Seq<char>>::empty());
            assert(spec_entry_fold(ed, acc0) == spec_entry_fold(ed.drop_first(), acc1));
            assert(spec_entry_fold(seq![l2, l3], acc1) == spec_entry_fold(
                seq![l2, l3].drop_first(),
                acc2,
            ));
            assert(spec_entry_fold(seq![l3], acc2) == spec_entry_fold(
                seq![l3].drop_first(),
                acc3,
            ));
            assert(spec_entry_fold(Seq::<Seq<char>>::empty(), acc3) == Option::Some(acc3));
            assert(spec_parse_entry(ed) == Option::Some(
                DomainV { name: d.name, token: d.token, ip: Option::Some(ip) },
            ));
            assert(DomainV { name: d.name, token: d.token, ip: Option::Some(ip) } =~= d);
        },
    }
}

/// The lines one list of domains encodes to begin with an entry start
/// and never with a continuation.
proof fn lemma_entries_lines_head(c: Seq<DomainV>)
    ensures
        spec_cont_count(spec_encode_entries_lines(c)) == 0,
        c.len() > 0 ==> spec_encode_entries_lines(c).len() > 0 && is_entry_start(
            spec_encode_entries_lines(c)[0],
        ),
{
    let rl = spec_encode_entries_lines(c);
    if c.len() == 0 {
        assert(rl.len() == 0);
    } else {
        let l1 = seq!['-', ' '] + key_name_chars() + seq![':', ' '] + c[0].name;
        assert(spec_encode_domain_lines(c[0])[0] == l1);
        assert(rl[0] == l1);
        assert(l1[0] == '-' && l1[1] == ' ');
        assert(!is_continuation(l1));
    }
}

proof fn lemma_parse_entries_encoded(c: Seq<DomainV>)
    requires
        config_wf(c),
    ensures
        spec_parse_entries(spec_encode_entries_lines(c)) == Option::Some(c),
    decreases c.len(),
{
    let lines = spec_encode_entries_lines(c);
    if c.len() == 0 {
        assert(c =~= Seq::<DomainV>::empty());
    } else {
        let d = c[0];
        assert(domain_wf(d));
        let ed = spec_encode_domain_lines(d);
        let rest_lines = spec_encode_entries_lines(c.drop_first());
        assert(lines == ed + rest_lines);
        let l2 = seq![' ', ' '] + key_token_chars() + seq![':', ' '] + d.token;
        assert(ed[1] == l2);
        assert(is_continuation(l2));
        assert(is_entry_start(lines[0])) by {
            let l1 = seq!['-', ' '] + key_name_chars() + seq![':', ' '] + d.name;
            assert(ed[0] == l1);
            assert(lines[0] == l1);
            assert(l1[0] == '-' && l1[1] == ' ');
        }
        lemma_entries_lines_head(c.drop_first());
        let tail = lines.drop_first();
        let g = ed.len() as int;
        match d.ip {
            Option::None => {
                assert(g == 2);
                assert(tail =~= seq![l2] + rest_lines);
                assert(tail[0] == l2);
                assert(tail.drop_first() =~= rest_lines);
                assert(spec_cont_count(tail) == 1 + spec_cont_count(rest_lines));
                assert(spec_cont_count(tail) == 1);
            },
            Option::Some(ip) => {
                let l3 = seq![' ', ' '] + key_ip_chars() + seq![':', ' ']
                    + spec_encode_ip_value(ip);
                assert(g == 3);
                assert(ed[2] == l3);
                assert(is_continuation(l3));
                assert(tail =~= seq![l2, l3] + rest_lines);
                assert(tail[0] == l2);
                assert(tail.drop_first() =~= seq![l3] + rest_lines);
                assert((seq![l3] + rest_lines)[0] == l3);
                assert((seq![l3] + rest_lines).drop_first() =~= rest_lines);
                assert(spec_cont_count(seq![l3] + rest_lines) == 1 + spec_cont_count(
                    rest_lines,
                ));
                assert(spec_cont_count(tail) == 2);
            },
        }
        let cc = spec_cont_count(tail);
        assert(1 + cc == g);
        assert(g <= lines.len());
        assert(lines.subrange(0, g) =~= ed);
        assert(lines.subrange(g, lines.len() as int) =~= rest_lines);
        lemma_parse_encoded_entry(d);
        assert(config_wf(c.drop_first())) by {
            assert(forall|i: int|
                0 <= i < c.drop_first().len() ==> #[trigger] c.drop_first()[i] == c[i + 1]);
        }
        lemma_parse_entries_encoded(c.drop_first());
        assert(spec_parse_entries(lines) == Option::Some(seq![d] + c.drop_first()));
        assert(seq![d] + c.drop_first() =~= c);
    }
}

/// No encoded line contains a newline, so the line structure survives.
proof fn lemma_encoded_entries_clean(c: Seq<DomainV>)
    requires
        config_wf(c),
    ensures
        forall|i: int|
            0 <= i < spec_encode_entries_lines(c).len() ==> !(
            #[trigger] spec_encode_entries_lines(c)[i]).contains('\n'),
    decreases c.len(),
{
    let lines = spec_encode_entries_lines(c);
    if c.len() == 0 {
    } else {
        let d = c[0];
        assert(domain_wf(d));
        let ed = spec_encode_domain_lines(d);
        let rest_lines = spec_encode_entries_lines(c.drop_first());
        assert(config_wf(c.drop_first())) by {
            assert(forall|i: int|
                0 <= i < c.drop_first().len() ==> #[trigger] c.drop_first()[i] == c[i + 1]);
        }
        lemma_encoded_entries_clean(c.drop_first());
        let l1 = seq!['-', ' '] + key_name_chars() + seq![':', ' '] + d.name;
        let l2 = seq![' ', ' '] + key_token_chars() + seq![':', ' '] + d.token;
        assert(!l1.contains('\n')) by {
            if l1.contains('\n') {
                let j = choose|j: int| 0 <= j < l1.len() && l1[j] == '\n';
                if j >= 8 {
                    assert(d.name[j - 8] == '\n');
                    assert(d.name.contains('\n'));
                }
            }
        }
        assert(!l2.contains('\n')) by {
            if l2.contains('\n') {
                let j = choose|j: int| 0 <= j < l2.len() && l2[j] == '\n';
                if j >= 9 {
                    assert(d.token[j - 9] == '\n');
                    assert(d.token.contains('\n'));
                }
            }
        }
        match d.ip {
            Option::None => {
                assert(ed =~= seq![l1, l2]);
                assert(forall|i: int|
                    0 <= i < lines.len() ==> !(#[trigger] lines[i]).contains('\n')) by {
                    assert(forall|i: int|
                        0 <= i < lines.len() ==> lines[i] == (if i < 2 {
                            ed[i]
                        } else {
                            rest_lines[i - 2]
                        }));
                }
            },
            Option::Some(ip) => {
                let v = spec_encode_ip_value(ip);
                let l3 = seq![' ', ' '] + key_ip_chars() + seq![':', ' '] + v;
                assert(!v.contains('\n')) by {
                    match ip {
                        IpV::Public => {
                            if v.contains('\n') {
                                let j = choose|j: int| 0 <= j < v.len() && v[j] == '\n';
                            }
                        },
                        IpV::IPv4(l) => {
                            if v.contains('\n') {
                                let j = choose|j: int| 0 <= j < v.len() && v[j] == '\n';
                                if 5 <= j < v.len() - 1 {
                                    assert(l[j - 5] == '\n');
                                    assert(l.contains('\n'));
                                    crate::ipaddr::lemma_ipv4_literal_chars(l, '\n');
                                }
                            }
                        },
                        IpV::IPv6(l) => {
                            if v.contains('\n') {
                                let j = choose|j: int| 0 <= j < v.len() && v[j] == '\n';
                                if 5 <= j < v.len() - 1 {
                                    assert(l[j - 5] == '\n');
                                    assert(l.contains('\n'));
                                    crate::ipaddr::lemma_ipv6_literal_chars(l, '\n');
                                }
                            }
                        },
                    }
                }
                assert(!l3.contains('\n')) by {
                    if l3.contains('\n') {
                        let j = choose|j: int| 0 <= j < l3.len() && l3[j] == '\n';
                        if j >= 6 {
                            assert(v[j - 6] == '\n');
                            assert(v.contains('\n'));
                        }
                    }
                }
                assert(ed =~= seq![l1, l2, l3]);
                assert(forall|i: int|
                    0 <= i < lines.len() ==> !(#[trigger] lines[i]).contains('\n')) by {
                    assert(forall|i: int|
                        0 <= i < lines.len() ==> lines[i] == (if i < 3 {
                            ed[i]
                        } else {
                            rest_lines[i - 3]
                        }));
                }
            },
        }
    }
}

proof fn lemma_unlines_concat(a: Seq<Seq<char>>, b: Seq<Seq<char>>)
    ensures
        spec_unlines(a + b) == spec_unlines(a) + spec_unlines(b),
    decreases a.len(),
{
    if a.len() == 0 {
        assert(a + b =~= b);
        assert(spec_unlines(a) + spec_unlines(b) =~= spec_unlines(b));
    } else {
        assert((a + b)[0] == a[0]);
        assert((a + b).drop_first() =~= a.drop_first() + b);
        lemma_unlines_concat(a.drop_first(), b);
        assert(spec_unlines(a + b) =~= spec_unlines(a) + spec_unlines(b));
    }
}

proof fn lemma_entries_snoc(s: Seq<DomainV>, d: DomainV)
    ensures
        spec_encode_entries_lines(s + seq![d]) == spec_encode_entries_lines(s)
            + spec_encode_domain_lines(d),
    decreases s.len(),
{
    if s.len() == 0 {
        assert((s + seq![d])[0] == d);
        assert((s + seq![d]).drop_first() =~= Seq::<DomainV>::empty());
        assert(spec_encode_entries_lines(Seq::<DomainV>::empty()) == Seq::<Seq<char>>::empty());
        assert(spec_encode_entries_lines(s + seq![d]) == spec_encode_domain_lines(d)
            + Seq::<Seq<char>>::empty());
        assert(spec_encode_entries_lines(s) == Seq::<Seq<char>>::empty());
        assert(spec_encode_entries_lines(s + seq![d]) =~= spec_encode_entries_lines(s)
            + spec_encode_domain_lines(d));
    } else {
        assert((s + seq![d])[0] == s[0]);
        assert((s + seq![d]).drop_first() =~= s.drop_first() + seq![d]);
        lemma_entries_snoc(s.drop_first(), d);
        assert(spec_encode_entries_lines(s + seq![d]) =~= spec_encode_entries_lines(s)
            + spec_encode_domain_lines(d));
    }
}

/// Write a configuration out as a document.
#[verifier::rlimit(60)]
pub fn encode_config(config: &Config) -> (r: String)
    ensures
        r@ == spec_encode_config(config@),
{
    let mut r: String = "domains:\n".to_owned();
    proof {
        reveal_strlit("domains:\n");
        assert(r@ =~= header_chars() + seq!['\n']);
        assert(seq![header_chars()].drop_first() =~= Seq::<Seq<char>>::empty());
        assert(spec_unlines(Seq::<Seq<char>>::empty()) == Seq::<char>::empty());
        assert(spec_unlines(seq![header_chars()]) =~= header_chars() + seq!['\n']);
        assert(config@.subrange(0, 0) =~= Seq::<DomainV>::empty());
        assert(spec_encode_entries_lines(Seq::<DomainV>::empty()) == Seq::<Seq<char>>::empty());
        assert(seq![header_chars()] + spec_encode_entries_lines(config@.subrange(0, 0)) =~= seq![
            header_chars(),
        ]);
        assert(r@ =~= spec_unlines(
            seq![header_chars()] + spec_encode_entries_lines(config@.subrange(0, 0)),
        ));
    }
    let n = config.domains.len();
    let mut i: usize = 0;
    while i < n
        invariant
            0 <= i <= n == config.domains.len(),
            r@ == spec_unlines(
                seq![header_chars()] + spec_encode_entries_lines(config@.subrange(0, i as int)),
            ),
        decreases n - i,
    {
        let ghost prefix = r@;
        let d = &config.domains[i];
        r.append("- name: ");
        r.append(d.name.as_str());
        r.append("\n");
        r.append("  token: ");
        r.append(d.token.as_str());
        r.append("\n");
        match &d.ip {
            Option::None => {},
            Option::Some(ip) => {
                r.append("  ip: ");
                match ip {
                    Ip::Public => {
                        r.append("public");
                    },
                    Ip::IPv4(l) => {
                        r.append("{v4: ");
                        r.append(l.as_str());
                        r.append("}");
                    },
                    Ip::IPv6(l) => {
                        r.append("{v6: ");
                        r.append(l.as_str());
                        r.append("}");
                    },
                }
                r.append("\n");
            },
        }
        proof {
            reveal_strlit("- name: ");
            reveal_strlit("\n");
            reveal_strlit("  token: ");
            reveal_strlit("  ip: ");
            reveal_strlit("public");
            reveal_strlit("{v4: ");
            reveal_strlit("{v6: ");
            reveal_strlit("}");
            let dv = config@[i as int];
            assert(dv == d@);
            let l1 = seq!['-', ' '] + key_name_chars() + seq![':', ' '] + dv.name;
            let l2 = seq![' ', ' '] + key_token_chars() + seq![':', ' '] + dv.token;
            assert("- name: "@ =~= seq!['-', ' '] + key_name_chars() + seq![':', ' ']);
            assert("  token: "@ =~= seq![' ', ' '] + key_token_chars() + seq![':', ' ']);
            assert("\n"@ =~= seq!['\n']);
            let ed = spec_encode_domain_lines(dv);
            match dv.ip {
                Option::None => {
                    assert(ed =~= seq![l1, l2]);
                    assert(seq![l1, l2].drop_first() =~= seq![l2]);
                    assert(seq![l2].drop_first() =~= Seq::<Seq<char>>::empty());
                    assert(spec_unlines(Seq::<Seq<char>>::empty()) == Seq::<char>::empty());
                    assert(spec_unlines(seq![l2]) =~= l2 + seq!['\n']);
                    assert(spec_unlines(seq![l1, l2]) =~= l1 + seq!['\n'] + (l2 + seq!['\n']));
                    assert(spec_unlines(ed) =~= l1 + seq!['\n'] + (l2 + seq!['\n']));
                    assert(r@ =~= prefix + spec_unlines(ed));
                },
                Option::Some(ipv) => {
                    let lv = spec_encode_ip_value(ipv);
                    let l3 = seq![' ', ' '] + key_ip_chars() + seq![':', ' '] + lv;
                    assert("  ip: "@ =~= seq![' ', ' '] + key_ip_chars() + seq![':', ' ']);
                    match ipv {
                        IpV::Public => {
                            assert("public"@ =~= public_chars());
                        },
                        IpV::IPv4(_) => {
                            assert("{v4: "@ =~= open_v4_chars());
                            assert("}"@ =~= seq!['}']);
                        },
                        IpV::IPv6(_) => {
                            assert("{v6: "@ =~= open_v6_chars());
                            assert("}"@ =~= seq!['}']);
                        },
                    }
                    assert(ed =~= seq![l1, l2, l3]);
                    assert(seq![l1, l2, l3].drop_first() =~= seq![l2, l3]);
                    assert(seq![l2, l3].drop_first() =~= seq![l3]);
                    assert(seq![l3].drop_first() =~= Seq::<Seq<char>>::empty());
                    assert(spec_unlines(Seq::<Seq<char>>::empty()) == Seq::<char>::empty());
                    assert(spec_unlines(seq![l3]) =~= l3 + seq!['\n']);
                    assert(spec_unlines(seq![l2, l3]) =~= l2 + seq!['\n'] + (l3 + seq!['\n']));
                    assert(spec_unlines(seq![l1, l2, l3]) =~= l1 + seq!['\n'] + (l2 + seq!['\n']
                        + (l3 + seq!['\n'])));
                    assert(spec_unlines(ed) =~= l1 + seq!['\n'] + (l2 + seq!['\n'] + (l3
                        + seq!['\n'])));
                    assert(r@ =~= prefix + spec_unlines(ed));
                },
            }
            let pre = config@.subrange(0, i as int);
            lemma_entries_snoc(pre, dv);
            lemma_unlines_concat(seq![header_chars()] + spec_encode_entries_lines(pre), ed);
            assert((seq![header_chars()] + spec_encode_entries_lines(pre)) + ed =~= seq![
                header_chars(),
            ] + spec_encode_entries_lines(pre + seq![dv]));
            assert(config@.subrange(0, i + 1 as int) =~= pre + seq![dv]);
            assert(r@ =~= spec_unlines(
                seq![header_chars()] + spec_encode_entries_lines(
                    config@.subrange(0, i + 1 as int),
                ),
            ));
        }
        i = i + 1;
    }
    proof {
        assert(config@.subrange(0, n as int) =~= config@);
    }
    r
}

// ---------------------------------------------------------------------
// Every configuration the parser accepts is well formed, so the round
// trip applies to any decoded document, whatever its key order was.
// ---------------------------------------------------------------------

/// Partial well-formedness of an accumulator mid-fold.
spec fn acc_wf(acc: EntryAcc) -> bool {
    &&& (acc.name matches Option::Some(n) ==> n.len() > 0 && !n.contains('\n'))
    &&& (acc.token matches Option::Some(t) ==> t.len() > 0 && !t.contains('\n'))
    &&& (acc.ip matches Option::Some(ip) ==> ip_sel_wf(ip))
}

proof fn lemma_entry_fold_wf(group: Seq<Seq<char>>, acc: EntryAcc)
    requires
        forall|i: int| 0 <= i < group.len() ==> !(#[trigger] group[i]).contains('\n'),
        acc_wf(acc),
    ensures
        match spec_entry_fold(group, acc) {
            Option::Some(a2) => acc_wf(a2),
            Option::None => true,
        },
    decreases group.len(),
{
    if group.len() == 0 {
    } else {
        let l = group[0];
        if l.len() < 2 {
        } else {
            let stripped = l.subrange(2, l.len() as int);
            lemma_subrange_keeps_absence(l, 2, l.len() as int, '\n');
            match spec_parse_kv(stripped) {
                Option::None => {},
                Option::Some(kv) => {
                    let k = kv.0;
                    let v = kv.1;
                    lemma_find_char(stripped, ':');
                    match spec_find_char(stripped, ':') {
                        Option::None => {},
                        Option::Some(ci) => {
                            lemma_subrange_keeps_absence(
                                stripped,
                                ci + 2,
                                stripped.len() as int,
                                '\n',
                            );
                        },
                    }
                    assert(!v.contains('\n'));
                    let rest = group.drop_first();
                    assert(forall|i: int|
                        0 <= i < rest.len() ==> !(#[trigger] rest[i]).contains('\n')) by {
                        assert(forall|i: int| 0 <= i < rest.len() ==> rest[i] == group[i + 1]);
                    }
                    if k == key_name_chars() {
                        if !(acc.name is Some || v.len() == 0) {
                            lemma_entry_fold_wf(
                                rest,
                                EntryAcc { name: Option::Some(v), ..acc },
                            );
                        }
                    } else if k == key_token_chars() {
                        if !(acc.token is Some || v.len() == 0) {
                            lemma_entry_fold_wf(
                                rest,
                                EntryAcc { token: Option::Some(v), ..acc },
                            );
                        }
                    } else if k == key_ip_chars() {
                        if !(acc.ip is Some) {
                            match spec_parse_ip_value(v) {
                                Option::None => {},
                                Option::Some(ip) => {
                                    assert(ip_sel_wf(ip));
                                    lemma_entry_fold_wf(
                                        rest,
                                        EntryAcc { ip: Option::Some(ip), ..acc },
                                    );
                                },
                            }
                        }
                    }
                },
            }
        }
    }
}

proof fn lemma_parse_entry_wf(group: Seq<Seq<char>>)
    requires
        forall|i: int| 0 <= i < group.len() ==> !(#[trigger] group[i]).contains('\n'),
    ensures
        match spec_parse_entry(group) {
            Option::Some(d) => domain_wf(d),
            Option::None => true,
        },
{
    lemma_entry_fold_wf(
        group,
        EntryAcc { name: Option::None, token: Option::None, ip: Option::None },
    );
}

proof fn lemma_parse_entries_wf(lines: Seq<Seq<char>>)
    requires
        forall|i: int| 0 <= i < lines.len() ==> !(#[trigger] lines[i]).contains('\n'),
    ensures
        match spec_parse_entries(lines) {
            Option::Some(c) => config_wf(c),
            Option::None => true,
        },
    decreases lines.len(),
{
    if lines.len() == 0 {
    } else if !is_entry_start(lines[0]) {
    } else {
        let cc = spec_cont_count(lines.drop_first());
        let k: int = if 1 + cc <= lines.len() {
            1 + cc as int
        } else {
            lines.len() as int
        };
        let group = lines.subrange(0, k);
        let rest = lines.subrange(k, lines.len() as int);
        assert(forall|i: int| 0 <= i < group.len() ==> !(#[trigger] group[i]).contains('\n'))
            by {
            assert(forall|i: int| 0 <= i < group.len() ==> group[i] == lines[i]);
        }
        assert(forall|i: int| 0 <= i < rest.len() ==> !(#[trigger] rest[i]).contains('\n'))
            by {
            assert(forall|i: int| 0 <= i < rest.len() ==> rest[i] == lines[k + i]);
        }
        lemma_parse_entry_wf(group);
        lemma_parse_entries_wf(rest);
        match spec_parse_entry(group) {
            Option::None => {},
            Option::Some(d) => {
                match spec_parse_entries(rest) {
                    Option::None => {},
                    Option::Some(c2) => {
                        assert(config_wf(seq![d] + c2)) by {
                            assert(forall|i: int|
                                1 <= i < (seq![d] + c2).len() ==> (seq![d] + c2)[i] == c2[i
                                    - 1]);
                            assert((seq![d] + c2)[0] == d);
                        }
                    },
                }
            },
        }
    }
}

/// Whatever the parser accepts is a well-formed configuration.
pub proof fn lemma_parse_config_wf(s: Seq<char>)
    ensures
        match spec_parse_config(s) {
            Option::Some(c) => config_wf(c),
            Option::None => true,
        },
{
    let parts = spec_split(s, '\n');
    lemma_split_parts_no_sep(s, '\n');
    let lines = spec_doc_lines(s);
    assert(forall|i: int| 0 <= i < lines.len() ==> !(#[trigger] lines[i]).contains('\n')) by {
        assert(forall|i: int| 0 <= i < lines.len() ==> lines[i] == parts[i]);
    }
    let el = lines.drop_first();
    if lines.len() >= 1 && lines[0] == header_chars() {
        assert(forall|i: int| 0 <= i < el.len() ==> !(#[trigger] el[i]).contains('\n')) by {
            assert(forall|i: int| 0 <= i < el.len() ==> el[i] == lines[i + 1]);
        }
        lemma_parse_entries_wf(el);
    }
}

/// Decoding then re-encoding preserves a configuration exactly: a
/// document that parses to `c`, whatever the order of its keys, is
/// re-encoded to a document that parses back to the same `c`, domain
/// order, names, tokens and address selections included.
pub proof fn lemma_decode_encode_round_trip(s: Seq<char>, c: Seq<DomainV>)
    requires
        spec_parse_config(s) == Option::Some(c),
    ensures
        config_wf(c),
        spec_parse_config(spec_encode_config(c)) == Option::Some(c),
{
    lemma_parse_config_wf(s);
    lemma_config_round_trip(c);
}

// ---------------------------------------------------------------------
// The executable parser.
// ---------------------------------------------------------------------

/// The parser's error details are drawn from this fixed set of
/// phrases: none quotes the document, so no token or other file text
/// can reach a log through a `ConfigParseError`.
pub open spec fn is_parse_error_message(m: Seq<char>) -> bool {
    ||| m == "empty document"@
    ||| m == "missing domains header"@
    ||| m == "expected list entry"@
    ||| m == "malformed line"@
    ||| m == "malformed key/value line"@
    ||| m == "repeated name key"@
    ||| m == "empty name"@
    ||| m == "repeated token key"@
    ||| m == "empty token"@
    ||| m == "repeated ip key"@
    ||| m == "malformed ip value"@
    ||| m == "unknown key"@
    ||| m == "entry missing name or token"@
}

/// A run of continuation lines of known extent pins the count.
proof fn lemma_cont_count_prefix(ls: Seq<Seq<char>>, b: int)
    requires
        0 <= b <= ls.len(),
        forall|m: int| 0 <= m < b ==> is_continuation(#[trigger] ls[m]),
        b < ls.len() ==> !is_continuation(ls[b]),
    ensures
        spec_cont_count(ls) == b,
    decreases b + 1,
{
    if ls.len() == 0 {
    } else if is_continuation(ls[0]) {
        assert(b > 0);
        let rest = ls.drop_first();
        assert(forall|m: int| 0 <= m < b - 1 ==> is_continuation(#[trigger] rest[m])) by {
            assert(forall|m: int| 0 <= m < rest.len() ==> rest[m] == ls[m + 1]);
        }
        assert(b - 1 < rest.len() ==> !is_continuation(rest[b - 1]));
        lemma_cont_count_prefix(rest, b - 1);
    } else {
        assert(b == 0);
    }
}

/// Parse a stripped key/value line.
fn parse_kv(stripped: &str) -> (r: Option<(String, String)>)
    ensures
        match r {
            Option::Some(kv) => spec_parse_kv(stripped@) == Option::Some((kv.0@, kv.1@)),
            Option::None => spec_parse_kv(stripped@) is None,
        },
{
    proof {
        lemma_find_char(stripped@, ':');
    }
    match find_char(stripped, ':') {
        Option::None => Option::None,
        Option::Some(i) => {
            let n = stripped.unicode_len();
            if i + 1 < n && stripped.get_char(i + 1) == ' ' {
                let key = stripped.substring_char(0, i).to_owned();
                let val = stripped.substring_char(i + 2, n).to_owned();
                Option::Some((key, val))
            } else {
                Option::None
            }
        },
    }
}

/// Parse an `ip` value.
fn parse_ip_value(v: &str) -> (r: Option<Ip>)
    ensures
        match r {
            Option::Some(ip) => spec_parse_ip_value(v@) == Option::Some(ip@),
            Option::None => spec_parse_ip_value(v@) is None,
        },
{
    proof {
        reveal_strlit("public");
        assert("public"@ =~= public_chars());
    }
    if str_eq(v, "public") {
        return Option::Some(Ip::Public);
    }
    let n = v.unicode_len();
    if n < 6 {
        return Option::None;
    }
    let last = v.get_char(n - 1);
    let prefix = v.substring_char(0, 5);
    let mid = v.substring_char(5, n - 1);
    proof {
        reveal_strlit("{v4: ");
        reveal_strlit("{v6: ");
        assert("{v4: "@ =~= open_v4_chars());
        assert("{v6: "@ =~= open_v6_chars());
        assert(v@.last() == last);
    }
    if str_eq(prefix, "{v4: ") {
        if last == '}' && is_valid_ipv4(mid) {
            return Option::Some(Ip::IPv4(mid.to_owned()));
        }
        proof {
            assert(v@.subrange(0, 5) != open_v6_chars()) by {
                assert(v@.subrange(0, 5)[2] == '4');
                assert(open_v6_chars()[2] == '6');
            }
        }
        return Option::None;
    }
    if str_eq(prefix, "{v6: ") {
        if last == '}' && is_valid_ipv6(mid) {
            return Option::Some(Ip::IPv6(mid.to_owned()));
        }
        return Option::None;
    }
    Option::None
}

/// Parse the lines `lines[start .. end]` as one entry.
fn parse_entry(lines: &Vec<String>, start: usize, end: usize) -> (r: Result<Domain, ConfigError>)
    requires
        start <= end,
        end <= lines@.len(),
    ensures
        match r {
            Result::Ok(d) => spec_parse_entry(
                lines.deep_view().subrange(start as int, end as int),
            ) == Option::Some(d@),
            Result::Err(e) => spec_parse_entry(
                lines.deep_view().subrange(start as int, end as int),
            ) is None && (e matches ConfigError::ConfigParseError(m) && is_parse_error_message(
                m@,
            )),
        },
{
    let ghost seg = lines.deep_view().subrange(start as int, end as int);
    let mut name_opt: Option<String> = Option::None;
    let mut token_opt: Option<String> = Option::None;
    let mut ip_opt: Option<Ip> = Option::None;
    let mut m = start;
    proof {
        assert(seg.subrange(0, seg.len() as int) =~= seg);
        assert(EntryAcc {
            name: name_opt.deep_view(),
            token: token_opt.deep_view(),
            ip: ip_opt.deep_view(),
        } =~= EntryAcc { name: Option::None, token: Option::None, ip: Option::None });
    }
    while m < end
        invariant
            start <= m <= end <= lines@.len(),
            seg == lines.deep_view().subrange(start as int, end as int),
            spec_entry_fold(
                seg,
                EntryAcc { name: Option::None, token: Option::None, ip: Option::None },
            ) == spec_entry_fold(
                seg.subrange((m - start) as int, seg.len() as int),
                EntryAcc {
                    name: name_opt.deep_view(),
                    token: token_opt.deep_view(),
                    ip: ip_opt.deep_view(),
                },
            ),
        decreases end - m,
    {
        proof {
            assert(seg.subrange((m - start) as int, seg.len() as int)[0] == seg[(m
                - start) as int]);
            assert(seg[(m - start) as int] == lines.deep_view()[m as int]);
            assert(lines.deep_view()[m as int] == lines@[m as int]@);
            assert(seg.subrange((m - start) as int, seg.len() as int).drop_first()
                =~= seg.subrange((m + 1 - start) as int, seg.len() as int));
        }
        let lm = lines[m].as_str();
        let lmlen = lm.unicode_len();
        if lmlen < 2 {
            return Result::Err(ConfigError::ConfigParseError("malformed line".to_owned()));
        }
        let stripped = lm.substring_char(2, lmlen);
        match parse_kv(stripped) {
            Option::None => {
                return Result::Err(
                    ConfigError::ConfigParseError("malformed key/value line".to_owned()),
                );
            },
            Option::Some((key, val)) => {
                proof {
                    reveal_strlit("name");
                    reveal_strlit("token");
                    reveal_strlit("ip");
                    assert("name"@ =~= key_name_chars());
                    assert("token"@ =~= key_token_chars());
                    assert("ip"@ =~= key_ip_chars());
                }
                if str_eq(key.as_str(), "name") {
                    if name_opt.is_some() {
                        return Result::Err(
                            ConfigError::ConfigParseError("repeated name key".to_owned()),
                        );
                    }
                    if val.as_str().unicode_len() == 0 {
                        return Result::Err(
                            ConfigError::ConfigParseError("empty name".to_owned()),
                        );
                    }
                    name_opt = Option::Some(val);
                } else if str_eq(key.as_str(), "token") {
                    if token_opt.is_some() {
                        return Result::Err(
                            ConfigError::ConfigParseError("repeated token key".to_owned()),
                        );
                    }
                    if val.as_str().unicode_len() == 0 {
                        return Result::Err(
                            ConfigError::ConfigParseError("empty token".to_owned()),
                        );
                    }
                    token_opt = Option::Some(val);
                } else if str_eq(key.as_str(), "ip") {
                    if ip_opt.is_some() {
                        return Result::Err(
                            ConfigError::ConfigParseError("repeated ip key".to_owned()),
                        );
                    }
                    match parse_ip_value(val.as_str()) {
                        Option::None => {
                            return Result::Err(
                                ConfigError::ConfigParseError("malformed ip value".to_owned()),
                            );
                        },
                        Option::Some(ip) => {
                            ip_opt = Option::Some(ip);
                        },
                    }
                } else {
                    return Result::Err(
                        ConfigError::ConfigParseError("unknown key".to_owned()),
                    );
                }
            },
        }
        m = m + 1;
    }
    proof {
        assert(seg.subrange((m - start) as int, seg.len() as int) =~= Seq::<Seq<char>>::empty());
    }
    match (name_opt, token_opt) {
        (Option::Some(nm), Option::Some(tk)) => {
            let d = Domain { name: nm, token: tk, ip: ip_opt };
            proof {
                assert(d@ =~= DomainV {
                    name: d.name@,
                    token: d.token@,
                    ip: d.ip.deep_view(),
                });
            }
            Result::Ok(d)
        },
        _ => Result::Err(
            ConfigError::ConfigParseError("entry missing name or token".to_owned()),
        ),
    }
}

/// Parse a whole document into a configuration.  All-or-nothing: any
/// structural fault rejects the document, and the error detail is one
/// of the fixed phrases of `is_parse_error_message`.
pub fn parse_config(text: &str) -> (r: Result<Config, ConfigError>)
    ensures
        match r {
            Result::Ok(c) => spec_parse_config(text@) == Option::Some(c@),
            Result::Err(e) => spec_parse_config(text@) is None && (e matches
                ConfigError::ConfigParseError(m) && is_parse_error_message(m@)),
        },
{
    let mut lines = split_str(text, '\n');
    proof {
        lemma_split_len(text@, '\n');
    }
    let llen = lines.len();
    if lines[llen - 1].as_str().unicode_len() == 0 {
        let ghost before = lines.deep_view();
        let _ = lines.pop();
        proof {
            assert(lines.deep_view() =~= before.drop_last());
            assert(lines.deep_view() == spec_doc_lines(text@));
        }
    } else {
        proof {
            assert(lines.deep_view() == spec_doc_lines(text@));
        }
    }
    if lines.len() == 0 {
        return Result::Err(ConfigError::ConfigParseError("empty document".to_owned()));
    }
    proof {
        reveal_strlit("domains:");
        assert("domains:"@ =~= header_chars());
        assert(lines.deep_view()[0] == lines@[0]@);
    }
    if !str_eq(lines[0].as_str(), "domains:") {
        return Result::Err(
            ConfigError::ConfigParseError("missing domains header".to_owned()),
        );
    }
    let ghost el = lines.deep_view().drop_first();
    let n = lines.len();
    let mut domains: Vec<Domain> = Vec::new();
    let mut pos: usize = 1;
    proof {
        assert(el.subrange(0, el.len() as int) =~= el);
        assert(domains.deep_view() =~= Seq::<DomainV>::empty());
        match spec_parse_entries(el) {
            Option::None => {},
            Option::Some(rest) => {
                assert(domains.deep_view() + rest =~= rest);
            },
        }
    }
    while pos < n
        invariant
            1 <= pos <= n == lines@.len(),
            el == lines.deep_view().drop_first(),
            el.len() == n - 1,
            spec_parse_config(text@) == (match spec_parse_entries(
                el.subrange((pos - 1) as int, el.len() as int),
            ) {
                Option::None => Option::<Seq<DomainV>>::None,
                Option::Some(rest) => Option::Some(domains.deep_view() + rest),
            }),
        decreases n - pos,
    {
        let ghost suffix = el.subrange((pos - 1) as int, el.len() as int);
        proof {
            assert(suffix[0] == el[(pos - 1) as int]);
            assert(el[(pos - 1) as int] == lines.deep_view()[pos as int]);
            assert(lines.deep_view()[pos as int] == lines@[pos as int]@);
        }
        let lp = lines[pos].as_str();
        let lplen = lp.unicode_len();
        if lplen < 2 || lp.get_char(0) != '-' || lp.get_char(1) != ' ' {
            proof {
                assert(!is_entry_start(suffix[0]));
            }
            return Result::Err(
                ConfigError::ConfigParseError("expected list entry".to_owned()),
            );
        }
        let mut j = pos + 1;
        while j < n
            invariant_except_break
                pos + 1 <= j <= n == lines@.len(),
                1 <= pos < n,
                el == lines.deep_view().drop_first(),
                el.len() == n - 1,
                forall|q: int| pos <= q < j - 1 ==> is_continuation(#[trigger] el[q]),
            ensures
                pos + 1 <= j <= n == lines@.len(),
                el == lines.deep_view().drop_first(),
                el.len() == n - 1,
                forall|q: int| pos <= q < j - 1 ==> is_continuation(#[trigger] el[q]),
                j < n ==> !is_continuation(el[(j - 1) as int]),
            decreases n - j,
        {
            proof {
                assert(el[(j - 1) as int] == lines.deep_view()[j as int]);
                assert(lines.deep_view()[j as int] == lines@[j as int]@);
            }
            let lj = lines[j].as_str();
            let ljlen = lj.unicode_len();
            if !(ljlen >= 2 && lj.get_char(0) == ' ' && lj.get_char(1) == ' ') {
                break;
            }
            j = j + 1;
        }
        proof {
            let after = el.subrange(pos as int, el.len() as int);
            assert(forall|m: int| 0 <= m < after.len() ==> after[m] == el[pos + m]);
            lemma_cont_count_prefix(after, (j - 1 - pos) as int);
            assert(suffix.drop_first() =~= after);
            assert(spec_cont_count(suffix.drop_first()) == j - 1 - pos);
            assert(suffix.subrange(0, (j - pos) as int) =~= lines.deep_view().subrange(
                pos as int,
                j as int,
            ));
            assert(suffix.subrange((j - pos) as int, suffix.len() as int) =~= el.subrange(
                (j - 1) as int,
                el.len() as int,
            ));
        }
        match parse_entry(&lines, pos, j) {
            Result::Err(e) => {
                return Result::Err(e);
            },
            Result::Ok(d) => {
                let ghost old_domains = domains.deep_view();
                domains.push(d);
                proof {
                    assert(domains.deep_view() =~= old_domains + seq![d@]);
                    match spec_parse_entries(el.subrange((j - 1) as int, el.len() as int)) {
                        Option::None => {},
                        Option::Some(rest) => {
                            assert((old_domains + seq![d@]) + rest =~= old_domains + (seq![d@]
                                + rest));
                        },
                    }
                }
                pos = j;
            },
        }
    }
    proof {
        assert(el.subrange((pos - 1) as int, el.len() as int) =~= Seq::<Seq<char>>::empty());
        match spec_parse_entries(Seq::<Seq<char>>::empty()) {
            Option::None => {},
            Option::Some(rest) => {
                assert(domains.deep_view() + rest =~= domains.deep_view());
            },
        }
    }
    Result::Ok(Config { domains })
}

/// Decoding undoes encoding: a well-formed configuration written out
/// and read back comes back unchanged, domain order, names, tokens
/// and address selections included.
pub proof fn lemma_config_round_trip(c: Seq<DomainV>)
    requires
        config_wf(c),
    ensures
        spec_parse_config(spec_encode_config(c)) == Option::Some(c),
{
    let entry_lines = spec_encode_entries_lines(c);
    let all = seq![header_chars()] + entry_lines;
    lemma_encoded_entries_clean(c);
    assert(!header_chars().contains('\n')) by {
        if header_chars().contains('\n') {
            let j = choose|j: int| 0 <= j < header_chars().len() && header_chars()[j] == '\n';
        }
    }
    assert(forall|i: int| 0 <= i < all.len() ==> !(#[trigger] all[i]).contains('\n')) by {
        assert(forall|i: int|
            0 <= i < all.len() ==> all[i] == (if i == 0 {
                header_chars()
            } else {
                entry_lines[i - 1]
            }));
    }
    lemma_doc_lines_unlines(all);
    assert(all[0] == header_chars());
    assert(all.drop_first() =~= entry_lines);
    lemma_parse_entries_encoded(c);
}

} // verus!
