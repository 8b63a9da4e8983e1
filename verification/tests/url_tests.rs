use regex::Regex;
use trojan_ui::config::Config;
use trojan_ui::url::{parse_trojan_url, port_value};

const PATTERN: &str = r"^trojan://(?P<passwd>[^@]+)@(?P<domain>[-A-Za-z0-9+&@#/%?=~_|!:,.;]+[-A-Za-z0-9+&@#/%=~_|]*):(?P<port>[0-9]{1,5})[^#]+#(?P<remarks>[-A-Za-z0-9+&@#/%=~_|.]+)$";

fn pieces(url: &str) -> Option<(String, String, String, String)> {
    parse_trojan_url(url).map(|p| (p.password, p.domain, p.port, p.remarks))
}

fn regex_pieces(re: &Regex, url: &str) -> Option<(String, String, String, String)> {
    re.captures(url).map(|c| {
        (
            c.name("passwd").unwrap().as_str().to_string(),
            c.name("domain").unwrap().as_str().to_string(),
            c.name("port").unwrap().as_str().to_string(),
            c.name("remarks").unwrap().as_str().to_string(),
        )
    })
}

#[test]
fn documented_share_link() {
    let url = "trojan://password@domain:443?security=tls&type=tcp&headerType=none#remark";
    assert_eq!(
        pieces(url),
        Some((
            "password".to_string(),
            "domain".to_string(),
            "443".to_string(),
            "remark".to_string()
        ))
    );
}

#[test]
fn wrong_scheme_is_refused() {
    assert_eq!(pieces("vless://password@domain:443?x#remark"), None);
    assert_eq!(pieces("trojan:/password@domain:443?x#remark"), None);
    assert_eq!(pieces(""), None);
}

#[test]
fn empty_password_is_refused() {
    assert_eq!(pieces("trojan://@domain:443?x#remark"), None);
}

#[test]
fn missing_query_is_refused() {
    // `[^#]+` needs at least one character after the port, and a port of
    // one digit leaves none
    assert_eq!(pieces("trojan://pw@host:4#remark"), None);
}

#[test]
fn port_gives_back_a_digit_to_the_query() {
    assert_eq!(
        pieces("trojan://pw@host:443#remark"),
        Some(("pw".to_string(), "host".to_string(), "44".to_string(), "remark".to_string()))
    );
}

#[test]
fn port_is_at_most_five_digits() {
    assert_eq!(
        pieces("trojan://pw@host:1234567?x#r"),
        Some(("pw".to_string(), "host".to_string(), "12345".to_string(), "r".to_string()))
    );
}

#[test]
fn domain_takes_the_last_usable_colon() {
    assert_eq!(
        pieces("trojan://pw@a:1:2?q#r"),
        Some(("pw".to_string(), "a:1".to_string(), "2".to_string(), "r".to_string()))
    );
}

#[test]
fn password_stops_at_first_at_sign() {
    assert_eq!(
        pieces("trojan://p@w@h:80?x#r"),
        Some(("p".to_string(), "w@h".to_string(), "80".to_string(), "r".to_string()))
    );
}

#[test]
fn remarks_may_hold_hash_and_dots() {
    assert_eq!(
        pieces("trojan://pw@h:80?x#my.node#2"),
        Some(("pw".to_string(), "h".to_string(), "80".to_string(), "my.node#2".to_string()))
    );
}

#[test]
fn bad_remarks_are_refused() {
    assert_eq!(pieces("trojan://pw@h:80?x#my node"), None);
    assert_eq!(pieces("trojan://pw@h:80?x#"), None);
}

#[test]
fn password_may_hold_any_character() {
    assert_eq!(
        pieces("trojan://pä ss:#@h:80?x#r"),
        Some(("pä ss:#".to_string(), "h".to_string(), "80".to_string(), "r".to_string()))
    );
}

#[test]
fn port_value_of_digits() {
    assert_eq!(port_value("443"), Some(443));
    assert_eq!(port_value("00080"), Some(80));
    assert_eq!(port_value("65535"), Some(65535));
    assert_eq!(port_value("65536"), None);
    assert_eq!(port_value("99999"), None);
    assert_eq!(port_value("0"), Some(0));
}

#[test]
fn config_from_documented_link() {
    let c = Config::from_url("trojan://password@domain:443?security=tls&type=tcp&headerType=none#remark");
    assert_eq!(c.remarks, "remark");
    assert_eq!(c.server, "domain");
    assert_eq!(c.server_port, 443);
    assert_eq!(c.client, "127.0.0.1");
    assert_eq!(c.client_port, 1080);
    assert_eq!(c.sni, "");
    assert_eq!(c.password, "password");
    assert!(c.verify);
}

#[test]
fn config_refuses_port_over_sixteen_bits() {
    assert!(Config::try_from_url("trojan://pw@h:70000?x#r").is_none());
    assert!(Config::try_from_url("trojan://pw@h:65535?x#r").is_some());
    assert!(Config::try_from_url("not a link").is_none());
}

#[test]
fn compose_then_parse_on_sample() {
    // law: a link written from its pieces is cut back into them
    let (pw, host, port, remarks) = ("s3cr:et", "example.com", "8443", "home-node");
    let url = format!("trojan://{}@{}:{}?sni=x#{}", pw, host, port, remarks);
    assert_eq!(
        pieces(&url),
        Some((pw.to_string(), host.to_string(), port.to_string(), remarks.to_string()))
    );
}

#[test]
fn parse_then_compose_on_sample() {
    // law: the pieces and the query between them give back the link
    let url = "trojan://pw@h:1:22x?y#r.s";
    let (p, d, port, r) = pieces(url).unwrap();
    let query_start = 9 + p.len() + 1 + d.len() + 1 + port.len();
    let hash = query_start + url[query_start..].find('#').unwrap();
    let query = &url[query_start..hash];
    assert!(!query.is_empty());
    assert_eq!(format!("trojan://{}@{}:{}{}#{}", p, d, port, query, r), url);
}

/// Agrees with the regular expression on many generated links.
#[test]
fn agrees_with_regex() {
    let re = Regex::new(PATTERN).unwrap();
    let alphabet: Vec<char> = vec![
        't', 'r', 'o', 'j', 'a', 'n', ':', '/', '@', '#', '?', '1', '2', '9', '0', 'x', '.', '!',
        '-', ' ', 'é', '_', '\n',
    ];
    let mut state: u64 = 0x2545F4914F6CDD1D;
    let mut next = || {
        state ^= state << 13;
        state ^= state >> 7;
        state ^= state << 17;
        state
    };
    let mut matched = 0;
    for round in 0..40000 {
        let mut s = String::new();
        if round % 10 != 0 {
            s.push_str("trojan://");
        }
        if round % 3 == 0 {
            // free text
            let len = (next() % 22) as usize;
            for _ in 0..len {
                s.push(alphabet[(next() % alphabet.len() as u64) as usize]);
            }
        } else {
            // link-shaped text: password, '@', domain, ':', digits, query, '#', remarks
            let digits = ['1', '2', '9', '0'];
            let parts: [(&[char], u64); 9] = [
                (&alphabet, 4),
                (&['@'], 2),
                (&alphabet, 6),
                (&[':'], 2),
                (&digits, 7),
                (&alphabet, 4),
                (&['#'], 2),
                (&alphabet, 4),
                (&['x', '.', '#', '1'], 3),
            ];
            for (chars, max) in parts.iter() {
                let len = 1 + (next() % max) as usize;
                for _ in 0..len {
                    s.push(chars[(next() % chars.len() as u64) as usize]);
                }
            }
        }
        let expected = regex_pieces(&re, &s);
        if expected.is_some() {
            matched += 1;
        }
        assert_eq!(pieces(&s), expected, "on {:?}", s);
    }
    assert!(matched > 50);
}
