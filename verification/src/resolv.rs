//! Resolv-file generator.
//!
//! Renders a resolved `DnsConfiguration` as POSIX resolver-configuration
//! text: a generated-by comment with the supplied timestamp, up to three
//! `nameserver` lines (IPv4 servers only, in list order), one `search` line
//! when suffixes exist, and a trailing newline. The rendering is a pure
//! function of the configuration and the timestamp.

use crate::dns::{DnsConfiguration, DnsConfigurationView, IpAddress};
use vstd::prelude::*;

verus! {

/// The character of a single decimal digit.
pub open spec fn digit_char(d: int) -> char {
    if d == 0 {
        '0'
    } else if d == 1 {
        '1'
    } else if d == 2 {
        '2'
    } else if d == 3 {
        '3'
    } else if d == 4 {
        '4'
    } else if d == 5 {
        '5'
    } else if d == 6 {
        '6'
    } else if d == 7 {
        '7'
    } else if d == 8 {
        '8'
    } else {
        '9'
    }
}

/// The decimal rendering of a non-negative integer, most significant digit
/// first, without leading zeros (a lone zero for 0).
pub open spec fn spec_decimal(n: int) -> Seq<char>
    decreases n,
{
    if n < 10 {
        seq![digit_char(n)]
    } else {
        spec_decimal(n / 10).push(digit_char(n % 10))
    }
}

/// The dotted-decimal rendering of an IPv4 address.
pub open spec fn spec_ipv4_text(a: u8, b: u8, c: u8, d: u8) -> Seq<char> {
    spec_decimal(a as int) + seq!['.'] + spec_decimal(b as int) + seq!['.'] + spec_decimal(
        c as int,
    ) + seq!['.'] + spec_decimal(d as int)
}

/// The `nameserver` lines for the given addresses, one line per address.
/// Only IPv4 addresses reach this function; an IPv6 address renders nothing.
pub open spec fn spec_lines_of(shown: Seq<IpAddress>) -> Seq<char>
    decreases shown.len(),
{
    if shown.len() == 0 {
        Seq::empty()
    } else {
        spec_lines_of(shown.drop_last()) + "nameserver "@ + (match shown.last() {
            IpAddress::V4(a, b, c, d) => spec_ipv4_text(a, b, c, d),
            IpAddress::V6(..) => Seq::empty(),
        }) + "\n"@
    }
}

/// The IPv4 servers of a server list, in order.
pub open spec fn ipv4_servers(servers: Seq<IpAddress>) -> Seq<IpAddress>
    decreases servers.len(),
{
    if servers.len() == 0 {
        Seq::empty()
    } else if servers.last().spec_is_ipv4() {
        ipv4_servers(servers.drop_last()).push(servers.last())
    } else {
        ipv4_servers(servers.drop_last())
    }
}

/// The `nameserver` lines of a server list: its first three IPv4 servers,
/// in list order (resolver files conventionally honor at most three).
pub open spec fn spec_nameserver_lines(servers: Seq<IpAddress>) -> Seq<char> {
    let shown = ipv4_servers(servers);
    if shown.len() <= 3 {
        spec_lines_of(shown)
    } else {
        spec_lines_of(shown.take(3))
    }
}

/// The given parts joined by single spaces.
pub open spec fn spec_joined(parts: Seq<Seq<char>>) -> Seq<char>
    decreases parts.len(),
{
    if parts.len() == 0 {
        Seq::empty()
    } else if parts.len() == 1 {
        parts[0]
    } else {
        spec_joined(parts.drop_last()) + seq![' '] + parts.last()
    }
}

/// The `search` line of a suffix list: absent when there is no suffix.
pub open spec fn spec_search_line(suffixes: Seq<Seq<char>>) -> Seq<char> {
    if suffixes.len() == 0 {
        Seq::empty()
    } else {
        "search "@ + spec_joined(suffixes) + "\n"@
    }
}

/// The generated-by comment line, with the supplied timestamp.
pub open spec fn spec_header(ts: Seq<char>) -> Seq<char> {
    "# Generated by WSL2 DNS Agent at "@ + ts + "\n"@
}

/// The full resolver-configuration text of a configuration and a timestamp:
/// the comment line, the `nameserver` lines, and the `search` line. Every
/// line ends with a newline, so the text ends with a trailing empty line.
pub open spec fn spec_resolv_text(c: DnsConfigurationView, ts: Seq<char>) -> Seq<char> {
    spec_header(ts) + spec_nameserver_lines(c.servers) + spec_search_line(c.suffixes)
}

/// Law: resolv-file generation is deterministic: equal configurations and
/// equal timestamps render identical text. Together with the contract of
/// `DnsConfiguration::generate_resolv`, two calls on equal values return
/// byte-identical strings, so regeneration is idempotent.
pub proof fn lemma_resolv_text_deterministic(
    c1: DnsConfigurationView,
    ts1: Seq<char>,
    c2: DnsConfigurationView,
    ts2: Seq<char>,
)
    requires
        c1 == c2,
        ts1 == ts2,
    ensures
        spec_resolv_text(c1, ts1) == spec_resolv_text(c2, ts2),
{
}

/// Law: with no suffixes, the text holds no `search` line: it is exactly the
/// comment line followed by the `nameserver` lines.
pub proof fn lemma_resolv_text_no_suffixes(c: DnsConfigurationView, ts: Seq<char>)
    requires
        c.suffixes.len() == 0,
    ensures
        spec_resolv_text(c, ts) == spec_header(ts) + spec_nameserver_lines(c.servers),
{
    assert(spec_header(ts) + spec_nameserver_lines(c.servers) + Seq::<char>::empty()
        =~= spec_header(ts) + spec_nameserver_lines(c.servers));
}

/// Law: only the first three IPv4 servers are rendered; further servers do
/// not change the `nameserver` lines.
pub proof fn lemma_resolv_text_at_most_three(servers: Seq<IpAddress>)
    requires
        ipv4_servers(servers).len() >= 3,
    ensures
        spec_nameserver_lines(servers) == spec_lines_of(ipv4_servers(servers).take(3)),
{
    if ipv4_servers(servers).len() == 3 {
        assert(ipv4_servers(servers).take(3) =~= ipv4_servers(servers));
    }
}

/// Appends one decimal digit to `out`.
fn push_digit(out: &mut String, d: u8)
    requires
        d < 10,
    ensures
        final(out)@ == old(out)@ + seq![digit_char(d as int)],
{
    proof {
        reveal_strlit("0");
        reveal_strlit("1");
        reveal_strlit("2");
        reveal_strlit("3");
        reveal_strlit("4");
        reveal_strlit("5");
        reveal_strlit("6");
        reveal_strlit("7");
        reveal_strlit("8");
        reveal_strlit("9");
    }
    match d {
        0 => out.append("0"),
        1 => out.append("1"),
        2 => out.append("2"),
        3 => out.append("3"),
        4 => out.append("4"),
        5 => out.append("5"),
        6 => out.append("6"),
        7 => out.append("7"),
        8 => out.append("8"),
        _ => out.append("9"),
    }
    proof {
        assert(final(out)@ =~= old(out)@ + seq![digit_char(d as int)]);
    }
}

/// Appends the decimal rendering of `n` to `out`.
fn append_decimal(out: &mut String, n: u8)
    ensures
        final(out)@ == old(out)@ + spec_decimal(n as int),
{
    if n >= 100 {
        push_digit(out, n / 100);
        push_digit(out, (n / 10) % 10);
        push_digit(out, n % 10);
        proof {
            assert((n as int) / 10 / 10 == (n as int) / 100);
            assert(spec_decimal(n as int / 10) == spec_decimal(n as int / 100).push(
                digit_char(n as int / 10 % 10),
            ));
            assert(spec_decimal(n as int / 100) =~= seq![digit_char(n as int / 100)]);
            assert(final(out)@ =~= old(out)@ + spec_decimal(n as int));
        }
    } else if n >= 10 {
        push_digit(out, n / 10);
        push_digit(out, n % 10);
        proof {
            assert(spec_decimal(n as int / 10) =~= seq![digit_char(n as int / 10)]);
            assert(final(out)@ =~= old(out)@ + spec_decimal(n as int));
        }
    } else {
        push_digit(out, n);
        proof {
            assert(final(out)@ =~= old(out)@ + spec_decimal(n as int));
        }
    }
}

/// Appends the dotted-decimal rendering of an IPv4 address to `out`.
fn append_ipv4(out: &mut String, a: u8, b: u8, c: u8, d: u8)
    ensures
        final(out)@ == old(out)@ + spec_ipv4_text(a, b, c, d),
{
    proof {
        reveal_strlit(".");
    }
    append_decimal(out, a);
    out.append(".");
    append_decimal(out, b);
    out.append(".");
    append_decimal(out, c);
    out.append(".");
    append_decimal(out, d);
    proof {
        assert("."@ =~= seq!['.']);
        assert(final(out)@ =~= old(out)@ + spec_ipv4_text(a, b, c, d));
    }
}

impl DnsConfiguration {
    /// Renders this configuration as resolver-configuration text, with the
    /// supplied timestamp in the comment line. The rendering is fully
    /// deterministic in the configuration and the timestamp: a comment line,
    /// a `nameserver` line for each of the first three IPv4 servers in list
    /// order, a `search` line when any suffix exists, and a trailing newline.
    pub fn generate_resolv(&self, timestamp: &str) -> (r: String)
        ensures
            r@ == spec_resolv_text(self@, timestamp@),
    {
        let mut out = String::new();
        out.append("# Generated by WSL2 DNS Agent at ");
        out.append(timestamp);
        out.append("\n");
        proof {
            assert(out@ =~= spec_header(timestamp@));
        }

        // nameserver lines: the first three IPv4 servers, in order.
        let ghost all4 = ipv4_servers(self.servers@);
        let n = self.servers.len();
        proof {
            assert(ipv4_servers(self.servers@.take(0)) =~= Seq::<IpAddress>::empty());
        }
        let mut count: usize = 0;
        let mut i: usize = 0;
        while i < n
            invariant
                0 <= i <= n,
                n == self.servers@.len(),
                all4 == ipv4_servers(self.servers@),
                count as int == (if ipv4_servers(self.servers@.take(i as int)).len() <= 3 {
                    ipv4_servers(self.servers@.take(i as int)).len() as int
                } else {
                    3
                }),
                out@ == spec_header(timestamp@) + spec_nameserver_lines(
                    self.servers@.take(i as int),
                ),
            decreases n - i,
        {
            let server = self.servers[i];
            let ghost prev4 = ipv4_servers(self.servers@.take(i as int));
            proof {
                assert(self.servers@.take(i as int + 1).drop_last() =~= self.servers@.take(
                    i as int,
                ));
                assert(self.servers@.take(i as int + 1).last() == server);
            }
            let ghost cur4 = ipv4_servers(self.servers@.take(i as int + 1));
            if server.is_ipv4() && count < 3 {
                proof {
                    assert(cur4 == prev4.push(server));
                    assert(prev4.len() == count);
                    assert(cur4.len() == count + 1 <= 3);
                    assert(cur4.drop_last() =~= prev4);
                    assert(cur4.last() == server);
                    assert(spec_lines_of(cur4) == spec_lines_of(prev4) + "nameserver "@ + (match server {
                        IpAddress::V4(a, b, c, d) => spec_ipv4_text(a, b, c, d),
                        IpAddress::V6(..) => Seq::empty(),
                    }) + "\n"@);
                }
                out.append("nameserver ");
                match server {
                    IpAddress::V4(a, b, c, d) => append_ipv4(&mut out, a, b, c, d),
                    IpAddress::V6(..) => (),
                }
                out.append("\n");
                count = count + 1;
                proof {
                    assert(out@ =~= spec_header(timestamp@) + spec_nameserver_lines(
                        self.servers@.take(i as int + 1),
                    ));
                }
            } else {
                proof {
                    if server.spec_is_ipv4() {
                        // A fourth or later IPv4 server: the first three are unchanged.
                        assert(cur4 == prev4.push(server));
                        assert(prev4.len() >= 3);
                        assert(cur4.take(3) =~= prev4.take(3));
                        assert(prev4.take(3) =~= (if prev4.len() <= 3 {
                            prev4
                        } else {
                            prev4.take(3)
                        }));
                    } else {
                        assert(cur4 == prev4);
                    }
                    assert(spec_nameserver_lines(self.servers@.take(i as int + 1))
                        == spec_nameserver_lines(self.servers@.take(i as int)));
                }
            }
            i = i + 1;
        }
        proof {
            assert(self.servers@.take(n as int) =~= self.servers@);
        }

        // search line, only when any suffix exists.
        let m = self.suffixes.len();
        if m > 0 {
            let ghost views = self.suffixes@.map_values(|s: String| s@);
            out.append("search ");
            out.append(self.suffixes[0].as_str());
            proof {
                assert(views.take(1) =~= seq![views[0]]);
                assert(spec_joined(views.take(1)) == views[0]);
            }
            let mut j: usize = 1;
            while j < m
                invariant
                    1 <= j <= m,
                    m == self.suffixes@.len(),
                    views == self.suffixes@.map_values(|s: String| s@),
                    out@ == spec_header(timestamp@) + spec_nameserver_lines(self.servers@)
                        + "search "@ + spec_joined(views.take(j as int)),
                decreases m - j,
            {
                proof {
                    reveal_strlit(" ");
                }
                out.append(" ");
                out.append(self.suffixes[j].as_str());
                proof {
                    assert(views.take(j as int + 1).drop_last() =~= views.take(j as int));
                    assert(views.take(j as int + 1).last() == views[j as int]);
                    assert(" "@ =~= seq![' ']);
                    assert(out@ =~= spec_header(timestamp@) + spec_nameserver_lines(self.servers@)
                        + "search "@ + spec_joined(views.take(j as int + 1)));
                }
                j = j + 1;
            }
            out.append("\n");
            proof {
                assert(views.take(m as int) =~= views);
                assert(out@ =~= spec_resolv_text(self@, timestamp@));
            }
        } else {
            proof {
                assert(self.suffixes@.map_values(|s: String| s@).len() == 0);
                assert(out@ + Seq::<char>::empty() =~= out@);
            }
        }
        out
    }
}

} // verus!
