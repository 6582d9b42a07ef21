use crate::common::net::{ip_address_text, ip_from_text, ip_to_text, parse_ip_address};
use crate::text::{around_chars, chars_of, find_first, first_index_of, slice_chars, str_eq, string_of};
use vstd::prelude::*;

verus! {

/// The text that a sortlist entry keeps, or the message that refuses it. An
/// entry is an address, or an address and a netmask around the first `/`;
/// an address alone is kept in its canonical form.
pub open spec fn sortlist_check(s: Seq<char>) -> Result<Seq<char>, Seq<char>> {
    match first_index_of(s, '/') {
        Some(i) => if ip_from_text(s.take(i)) is None {
            Err("invalid IP address: invalid IP address syntax"@)
        } else if ip_from_text(s.skip(i + 1)) is None {
            Err("invalid IP netmask after delimiter `/`: invalid IP address syntax"@)
        } else {
            Ok(s)
        },
        None => match ip_from_text(s) {
            Some(a) => Ok(ip_to_text(a)),
            None => Err("invalid IP address: invalid IP address syntax"@),
        },
    }
}

/// An entry of the `sortlist` of `resolv.conf`: an address with an optional
/// netmask.
pub struct SortlistPair(String);

impl View for SortlistPair {
    type V = Seq<char>;

    closed spec fn view(&self) -> Seq<char> {
        self.0@
    }
}

impl SortlistPair {
    pub fn from_str(s: &str) -> (r: Result<SortlistPair, String>)
        ensures
            r is Ok <==> sortlist_check(s@) is Ok,
            r matches Ok(p) ==> p@ == sortlist_check(s@)->Ok_0,
            r matches Err(m) ==> m@ == sortlist_check(s@)->Err_0,
    {
        let cs = chars_of(s);
        match find_first(&cs, '/') {
            Some(i) => {
                let prefix = string_of(&slice_chars(&cs, 0, i));
                let suffix = string_of(&slice_chars(&cs, i + 1, cs.len()));
                assert(cs@.subrange(0, i as int) =~= s@.take(i as int));
                assert(cs@.subrange(i + 1, cs@.len() as int) =~= s@.skip(i + 1));
                if parse_ip_address(prefix.as_str()).is_none() {
                    return Err("invalid IP address: invalid IP address syntax".to_owned());
                }
                if parse_ip_address(suffix.as_str()).is_none() {
                    return Err(
                        "invalid IP netmask after delimiter `/`: invalid IP address syntax".to_owned(),
                    );
                }
                Ok(SortlistPair(s.to_owned()))
            },
            None => match parse_ip_address(s) {
                Some(a) => Ok(SortlistPair(ip_address_text(&a))),
                None => Err("invalid IP address: invalid IP address syntax".to_owned()),
            },
        }
    }

    pub fn as_str(&self) -> (r: &str)
        ensures
            r@ == self@,
    {
        self.0.as_str()
    }
}

/// The options that `resolv.conf` accepts on its `options` line.
pub open spec fn resolver_options() -> Seq<Seq<char>> {
    seq![
        "debug"@, "ndots:0"@, "ndots:1"@, "ndots:2"@, "ndots:3"@, "ndots:4"@, "ndots:5"@,
        "ndots:6"@, "ndots:7"@, "ndots:8"@, "ndots:9"@, "ndots:10"@, "ndots:11"@, "ndots:12"@,
        "ndots:13"@, "ndots:14"@, "ndots:15"@, "timeout:0"@, "timeout:1"@, "timeout:2"@,
        "timeout:3"@, "timeout:4"@, "timeout:5"@, "timeout:6"@, "timeout:7"@, "timeout:8"@,
        "timeout:9"@, "timeout:10"@, "timeout:11"@, "timeout:12"@, "timeout:13"@, "timeout:14"@,
        "timeout:15"@, "timeout:16"@, "timeout:17"@, "timeout:18"@, "timeout:19"@, "timeout:20"@,
        "timeout:21"@, "timeout:22"@, "timeout:23"@, "timeout:24"@, "timeout:25"@, "timeout:26"@,
        "timeout:27"@, "timeout:28"@, "timeout:29"@, "timeout:30"@, "attempts:0"@, "attempts:1"@,
        "attempts:2"@, "attempts:3"@, "attempts:4"@, "attempts:5"@, "rotate"@, "no-check-names"@,
        "inet6"@, "edns0"@, "single-request"@, "single-request-reopen"@, "no-tld-query"@,
        "use-vc"@, "no-reload"@, "trust-ad"@,
    ]
}

fn option_list() -> (r: Vec<&'static str>)
    ensures
        r@.map_values(|o: &str| o@) == resolver_options(),
{
    let r = vec![
        "debug", "ndots:0", "ndots:1", "ndots:2", "ndots:3", "ndots:4", "ndots:5", "ndots:6",
        "ndots:7", "ndots:8", "ndots:9", "ndots:10", "ndots:11", "ndots:12", "ndots:13", "ndots:14",
        "ndots:15", "timeout:0", "timeout:1", "timeout:2", "timeout:3", "timeout:4", "timeout:5",
        "timeout:6", "timeout:7", "timeout:8", "timeout:9", "timeout:10", "timeout:11",
        "timeout:12", "timeout:13", "timeout:14", "timeout:15", "timeout:16", "timeout:17",
        "timeout:18", "timeout:19", "timeout:20", "timeout:21", "timeout:22", "timeout:23",
        "timeout:24", "timeout:25", "timeout:26", "timeout:27", "timeout:28", "timeout:29",
        "timeout:30", "attempts:0", "attempts:1", "attempts:2", "attempts:3", "attempts:4",
        "attempts:5", "rotate", "no-check-names", "inet6", "edns0", "single-request",
        "single-request-reopen", "no-tld-query", "use-vc", "no-reload", "trust-ad",
    ];
    assert(r@.map_values(|o: &str| o@) =~= resolver_options());
    r
}

/// An option of the `options` line of `resolv.conf`.
pub struct ResolverOption(String);

impl View for ResolverOption {
    type V = Seq<char>;

    closed spec fn view(&self) -> Seq<char> {
        self.0@
    }
}

impl ResolverOption {
    pub fn from_str(s: &str) -> (r: Result<ResolverOption, String>)
        ensures
            r is Ok <==> resolver_options().contains(s@),
            r matches Ok(o) ==> o@ == s@,
            r matches Err(m) ==> m@ == "invalid resolver option `"@ + s@ + "`"@,
    {
        let options = option_list();
        let mut i: usize = 0;
        while i < options.len()
            invariant
                i <= options.len(),
                options@.map_values(|o: &str| o@) == resolver_options(),
                forall|j: int| 0 <= j < i ==> resolver_options()[j] != s@,
            decreases options.len() - i,
        {
            assert(resolver_options()[i as int] == options@[i as int]@);
            if str_eq(s, options[i]) {
                return Ok(ResolverOption(s.to_owned()));
            }
            i = i + 1;
        }
        assert(!resolver_options().contains(s@)) by {
            if resolver_options().contains(s@) {
                let k = choose|k: int| 0 <= k < resolver_options().len() && resolver_options()[k] == s@;
                assert(resolver_options()[k] != s@);
            }
        }
        let cs = chars_of(s);
        Err(around_chars("invalid resolver option `", &cs, "`"))
    }

    pub fn as_str(&self) -> (r: &str)
        ensures
            r@ == self@,
    {
        self.0.as_str()
    }
}

} // verus!
