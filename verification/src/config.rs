//! Client configuration records.

use vstd::prelude::*;
use crate::url::{
    chars_of, compose_url, decimal_value, is_digit, is_domain_head_char, is_remarks_char,
    lemma_compose_then_parse, parse_trojan_url, port_value, trojan_scheme, url_matches, url_pieces,
};
use crate::paths::{join_path, path_join};

verus! {

/// One client configuration: the trojan server to reach, the local SOCKS
/// endpoint to offer, and the credentials.
#[derive(Debug)]
pub struct Config {
    pub remarks: String,
    pub server: String,
    pub server_port: u16,
    pub client: String,
    pub client_port: u16,
    pub sni: String,
    pub password: String,
    pub verify: bool,
}

/// A list of client configurations.
#[derive(Debug)]
pub struct ConfigList {
    pub configs: Vec<Config>,
}

/// `s` is a share link that matches the pattern and whose port fits in
/// 16 bits.
pub open spec fn url_accepted(s: Seq<char>) -> bool {
    url_matches(s) && decimal_value(url_pieces(s).2) <= 65535
}

/// `c` is the configuration that the share link `s` describes: its
/// password, domain, port and remarks, with the local endpoint
/// `127.0.0.1:1080`, no SNI, and certificate verification on.
pub open spec fn config_from_url(c: Config, s: Seq<char>) -> bool {
    &&& c.remarks@ == url_pieces(s).3
    &&& c.server@ == url_pieces(s).1
    &&& c.server_port == decimal_value(url_pieces(s).2)
    &&& c.client@ == "127.0.0.1"@
    &&& c.client_port == 1080
    &&& c.sni@ == Seq::<char>::empty()
    &&& c.password@ == url_pieces(s).0
    &&& c.verify
}

impl Config {
    /// The sample configuration shown before any is loaded.
    pub fn default() -> (c: Config)
        ensures
            c.remarks@ == "test"@,
            c.server@ == "192.168.1.100"@,
            c.server_port == 443,
            c.client@ == "127.0.0.1"@,
            c.client_port == 1080,
            c.sni@ == "example.com"@,
            c.password@ == "123456"@,
            c.verify,
    {
        Config {
            remarks: "test".to_owned(),
            server: "192.168.1.100".to_owned(),
            server_port: 443u16,
            client: "127.0.0.1".to_owned(),
            client_port: 1080u16,
            sni: "example.com".to_owned(),
            password: "123456".to_owned(),
            verify: true,
        }
    }

    /// The configuration that a share link of the form
    /// `trojan://password@domain:port?query#remarks` describes, or `None`
    /// when the link does not match the pattern or its port exceeds 65535.
    pub fn try_from_url(url: &str) -> (r: Option<Config>)
        ensures
            r is Some <==> url_accepted(url@),
            r matches Some(c) ==> config_from_url(c, url@),
    {
        let parts = match parse_trojan_url(url) {
            Some(p) => p,
            None => return None,
        };
        let port = match port_value(parts.port.as_str()) {
            Some(p) => p,
            None => return None,
        };
        Some(
            Config {
                remarks: parts.remarks,
                server: parts.domain,
                server_port: port,
                client: "127.0.0.1".to_owned(),
                client_port: 1080u16,
                sni: String::new(),
                password: parts.password,
                verify: true,
            },
        )
    }

    /// The configuration that a share link describes; the link must match
    /// the pattern and carry a port that fits in 16 bits.
    pub fn from_url(url: &str) -> (c: Config)
        requires
            url_accepted(url@),
        ensures
            config_from_url(c, url@),
    {
        Config::try_from_url(url).unwrap()
    }
}

/// `client_`, the start of every configuration file name.
pub open spec fn client_prefix() -> Seq<char> {
    seq!['c', 'l', 'i', 'e', 'n', 't', '_']
}

/// `.json`, the end of every configuration file name.
pub open spec fn json_suffix() -> Seq<char> {
    seq!['.', 'j', 's', 'o', 'n']
}

/// `name` has the form `client_*.json` of a configuration file.
pub open spec fn is_client_config_name(name: Seq<char>) -> bool {
    &&& name.len() >= 12
    &&& name.subrange(0, 7) == client_prefix()
    &&& name.subrange(name.len() - 5, name.len() as int) == json_suffix()
}


/// Law: a share link written as `trojan://password@domain:port?query#remarks`
/// from pieces that keep to their classes (a password without `@`, of any
/// length; a domain of leading-domain characters; one to five port digits
/// worth at most 65535; a query without `#` or `:` that does not start
/// with a digit; remarks of remarks-class characters) is accepted, and the
/// configuration built from it carries exactly that password, that domain
/// as server, that port's value, and those remarks.
pub proof fn lemma_config_from_link(
    password: Seq<char>,
    domain: Seq<char>,
    port: Seq<char>,
    query: Seq<char>,
    remarks: Seq<char>,
    c: Config,
)
    requires
        password.len() >= 1,
        forall|i: int| 0 <= i < password.len() ==> password[i] != '@',
        domain.len() >= 1,
        forall|i: int| 0 <= i < domain.len() ==> is_domain_head_char(#[trigger] domain[i]),
        1 <= port.len() <= 5,
        forall|i: int| 0 <= i < port.len() ==> is_digit(#[trigger] port[i]),
        decimal_value(port) <= 65535,
        query.len() >= 1,
        !is_digit(query[0]),
        forall|i: int| 0 <= i < query.len() ==> query[i] != '#' && query[i] != ':',
        remarks.len() >= 1,
        forall|i: int| 0 <= i < remarks.len() ==> is_remarks_char(#[trigger] remarks[i]),
    ensures
        url_accepted(
            trojan_scheme() + password + seq!['@'] + domain + seq![':'] + port + query + seq!['#']
                + remarks,
        ),
        config_from_url(
            c,
            trojan_scheme() + password + seq!['@'] + domain + seq![':'] + port + query + seq!['#']
                + remarks,
        ) ==> {
            &&& c.password@ == password
            &&& c.server@ == domain
            &&& c.server_port == decimal_value(port)
            &&& c.remarks@ == remarks
            &&& c.client@ == "127.0.0.1"@
            &&& c.client_port == 1080
            &&& c.sni@.len() == 0
            &&& c.verify
        },
{
    let link = trojan_scheme() + password + seq!['@'] + domain + seq![':'] + port + query + seq![
        '#',
    ] + remarks;
    assert(link == compose_url(password, domain, port, query, remarks));
    lemma_compose_then_parse(password, domain, port, query, remarks);
}

/// The directory that holds the configuration files: `trui` in the home
/// directory, or `None` when the home directory is unknown.
pub fn config_dir(home: Option<&str>) -> (r: Option<String>)
    ensures
        match home {
            Some(h) => r matches Some(d) && d@ == path_join(h@, "trui"@),
            None => r is None,
        },
{
    match home {
        Some(h) => Some(join_path(h, "trui")),
        None => None,
    }
}

/// Whether a file name has the form `client_*.json` of a configuration
/// file.
pub fn is_config_file_name(name: &str) -> (r: bool)
    ensures
        r == is_client_config_name(name@),
{
    let v = chars_of(name);
    let n = v.len();
    if n < 12 {
        return false;
    }
    let r = v[0] == 'c' && v[1] == 'l' && v[2] == 'i' && v[3] == 'e' && v[4] == 'n' && v[5] == 't'
        && v[6] == '_' && v[n - 5] == '.' && v[n - 4] == 'j' && v[n - 3] == 's' && v[n - 2] == 'o'
        && v[n - 1] == 'n';
    proof {
        let head = name@.subrange(0, 7);
        let tail = name@.subrange(n - 5, n as int);
        if r {
            assert(head == client_prefix());
            assert(tail == json_suffix());
        } else if is_client_config_name(name@) {
            assert(head[0] == 'c' && head[1] == 'l' && head[2] == 'i' && head[3] == 'e' && head[4]
                == 'n' && head[5] == 't' && head[6] == '_');
            assert(tail[0] == '.' && tail[1] == 'j' && tail[2] == 's' && tail[3] == 'o' && tail[4]
                == 'n');
        }
    }
    r
}

/// The name of the configuration file saved under the stamp `stamp`.
pub fn config_file_name(stamp: &str) -> (r: String)
    ensures
        r@ == client_prefix() + stamp@ + json_suffix(),
{
    let mut r = "client_".to_owned();
    r.append(stamp);
    r.append(".json");
    proof {
        reveal_strlit("client_");
        reveal_strlit(".json");
        assert("client_"@ == client_prefix());
        assert(".json"@ == json_suffix());
    }
    r
}


/// The text that chrono gives for the UTC time `secs` seconds and `nanos`
/// nanoseconds after the Unix epoch, formatted as `%Y%m%d%H%M%S-%f`, or
/// `None` when chrono does not accept that time.
pub uninterp spec fn utc_stamp(secs: i64, nanos: u32) -> Option<Seq<char>>;

/// Calls chrono's `DateTime::<Utc>::from_timestamp(secs, nanos)` and, when
/// it gives a time, formats it with `%Y%m%d%H%M%S-%f`. The contract only
/// names the outcome (`utc_stamp`); the calendar arithmetic and the digits
/// are chrono's and are not stated here.
#[verifier::external_body]
fn format_utc_stamp(secs: i64, nanos: u32) -> (r: Option<String>)
    ensures
        match r {
            Some(t) => utc_stamp(secs, nanos) == Some(t@),
            None => utc_stamp(secs, nanos) is None,
        },
{
    match chrono::DateTime::from_timestamp(secs, nanos) {
        Some(t) => Some(t.format("%Y%m%d%H%M%S-%f").to_string()),
        None => None,
    }
}

/// The name of the configuration file saved at the UTC time `secs`
/// seconds and `nanos` nanoseconds after the Unix epoch: `client_`, the
/// time stamped as `%Y%m%d%H%M%S-%f`, and `.json`; `None` when the time
/// cannot be stamped.
pub fn saved_config_file_name(secs: i64, nanos: u32) -> (r: Option<String>)
    ensures
        match r {
            Some(n) => utc_stamp(secs, nanos) matches Some(t) && n@ == client_prefix() + t
                + json_suffix(),
            None => utc_stamp(secs, nanos) is None,
        },
{
    match format_utc_stamp(secs, nanos) {
        Some(stamp) => Some(config_file_name(stamp.as_str())),
        None => None,
    }
}

/// Law: every file that is saved under a stamp is found again when the
/// configuration directory is scanned.
pub proof fn lemma_saved_name_is_found(stamp: Seq<char>)
    ensures
        is_client_config_name(client_prefix() + stamp + json_suffix()),
{
    let name = client_prefix() + stamp + json_suffix();
    assert(name.subrange(0, 7) == client_prefix());
    assert(name.subrange(name.len() - 5, name.len() as int) == json_suffix());
}

} // verus!
