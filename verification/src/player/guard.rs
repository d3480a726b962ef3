//! Guards of the local IDE server against foreign pages in the browser.
//!
//! The core listens on 127.0.0.1, but any open web page can send requests
//! there. So the session has a random token (the IDE gets it once in a
//! link and keeps it in a `SameSite=Strict` cookie), the `Host` header must
//! be our address, an `Origin`, if any, only ours, and whatever changes
//! state comes only by POST.

use vstd::prelude::*;
use crate::numtext::{decimal, push_decimal};
use crate::player::{field_value, find_field};
use crate::text::{
    ascii_lower_seq, chars_eq, chars_of, string_of_chars, sub_chars, to_ascii_lower, trim_chars,
    trim_ws,
};

verus! {

pub const COOKIE: &'static str = "stratum_token";

/// The headers of a request that the guards look at.
#[derive(Default, Debug)]
pub struct Headers {
    pub host: Option<String>,
    pub origin: Option<String>,
    pub cookie: Option<String>,
    pub token: Option<String>,
}

pub open spec fn opt_text(o: Option<String>) -> Option<Seq<char>> {
    match o {
        Some(s) => Some(s@),
        None => None,
    }
}

/// The first colon of a line.
pub open spec fn first_colon(s: Seq<char>) -> Option<int> {
    if exists|i: int| 0 <= i < s.len() && s[i] == ':' {
        Some(choose|i: int| 0 <= i < s.len() && s[i] == ':' && forall|j: int| 0 <= j < i ==> s[j] != ':')
    } else {
        None
    }
}

/// The header name of a line `Name: value`, trimmed, in lower case.
pub open spec fn header_name(s: Seq<char>, c: int) -> Seq<char> {
    ascii_lower_seq(trim_ws(s.subrange(0, c)))
}

/// The header value of a line `Name: value`, trimmed.
pub open spec fn header_value(s: Seq<char>, c: int) -> Seq<char> {
    trim_ws(s.subrange(c + 1, s.len() as int))
}

fn text_is(a: &Vec<char>, b: &str) -> (r: bool)
    ensures
        r == (a@ == b@),
{
    let bc = chars_of(b);
    chars_eq(a, &bc)
}

impl Headers {
    /// Takes in a line `Name: value` of the request: `Host`, `Origin`,
    /// `Cookie` and `X-Stratum-Token` (names without regard to case) are
    /// kept, trimmed; other lines and lines without a colon change nothing.
    pub fn read(line: &str, into: &mut Headers)
        ensures
            match first_colon(line@) {
                None => *final(into) == *old(into),
                Some(c) => {
                    let name = header_name(line@, c);
                    let value = header_value(line@, c);
                    &&& opt_text(final(into).host) == if name == "host"@ {
                        Some(value)
                    } else {
                        opt_text(old(into).host)
                    }
                    &&& opt_text(final(into).origin) == if name == "origin"@ {
                        Some(value)
                    } else {
                        opt_text(old(into).origin)
                    }
                    &&& opt_text(final(into).cookie) == if name == "cookie"@ {
                        Some(value)
                    } else {
                        opt_text(old(into).cookie)
                    }
                    &&& opt_text(final(into).token) == if name == "x-stratum-token"@ {
                        Some(value)
                    } else {
                        opt_text(old(into).token)
                    }
                },
            },
    {
        proof {
            reveal_strlit("host");
            reveal_strlit("origin");
            reveal_strlit("cookie");
            reveal_strlit("x-stratum-token");
            assert("host"@.len() == 4);
            assert("origin"@.len() == 6);
            assert("cookie"@.len() == 6);
            assert("cookie"@[0] != "origin"@[0]);
            assert("x-stratum-token"@.len() == 15);
        }
        let s = chars_of(line);
        let mut c: usize = 0;
        while c < s.len() && s[c] != ':'
            invariant
                s@ == line@,
                c <= s@.len(),
                forall|j: int| 0 <= j < c ==> s@[j] != ':',
            decreases s.len() - c,
        {
            c = c + 1;
        }
        if c >= s.len() {
            assert(first_colon(line@) is None);
            return;
        }
        assert(first_colon(line@) == Some(c as int));
        let name = to_ascii_lower(&trim_chars(&sub_chars(&s, 0, c)));
        let value = string_of_chars(&trim_chars(&sub_chars(&s, c + 1, s.len())));
        assert(name@ == header_name(line@, c as int));
        assert(value@ == header_value(line@, c as int));
        if text_is(&name, "host") {
            into.host = Some(value);
        } else if text_is(&name, "origin") {
            into.origin = Some(value);
        } else if text_is(&name, "cookie") {
            into.cookie = Some(value);
        } else if text_is(&name, "x-stratum-token") {
            into.token = Some(value);
        }
    }

    /// The token in the cookie: the value of the first `stratum_token=…`
    /// among the fields split at `;`, each trimmed.
    pub open spec fn spec_cookie_token(&self) -> Option<Seq<char>> {
        match self.cookie {
            Some(c) => field_value(c@, 0, ';', COOKIE@, true),
            None => None,
        }
    }

    fn cookie_token(&self) -> (r: Option<String>)
        ensures
            opt_text(r) == self.spec_cookie_token(),
    {
        match &self.cookie {
            Some(c) => find_field(c.as_str(), ';', COOKIE, true),
            None => None,
        }
    }
}

/// Comparison without an early exit, so that the time of an answer tells
/// nothing of how much of a token was right.
fn same(a: &str, b: &str) -> (r: bool)
    ensures
        r == (a@ == b@),
{
    let x = chars_of(a);
    let y = chars_of(b);
    if x.len() != y.len() {
        return false;
    }
    let mut differ: u8 = 0;
    let mut i: usize = 0;
    while i < x.len()
        invariant
            x@ == a@,
            y@ == b@,
            x@.len() == y@.len(),
            i <= x@.len(),
            differ <= 1,
            (differ == 0) == (forall|j: int| 0 <= j < i ==> x@[j] == y@[j]),
        decreases x.len() - i,
    {
        let d: u8 = if x[i] != y[i] {
            1
        } else {
            0
        };
        assert((differ | d) == 0 <==> (differ == 0 && d == 0)) by (bit_vector);
        assert(differ <= 1 && d <= 1 ==> (differ | d) <= 1) by (bit_vector);
        differ = differ | d;
        i = i + 1;
    }
    assert(differ == 0 ==> x@ =~= y@);
    differ == 0
}

/// `127.0.0.1:port` or `localhost:port`.
pub open spec fn our_host(host: Seq<char>, port: u16) -> bool {
    host == "127.0.0.1:"@ + decimal(port as nat) || host == "localhost:"@ + decimal(port as nat)
}

/// Our origins: `http://127.0.0.1:port`, `http://localhost:port` and the
/// shell's `tauri://localhost`.
pub open spec fn our_origin(origin: Seq<char>, port: u16) -> bool {
    origin == "http://127.0.0.1:"@ + decimal(port as nat) || origin == "http://localhost:"@
        + decimal(port as nat) || origin == "tauri://localhost"@
}

fn with_port(prefix: &str, port: u16) -> (r: Vec<char>)
    ensures
        r@ == prefix@ + decimal(port as nat),
{
    let mut s = String::new();
    s.append(prefix);
    push_decimal(&mut s, port as u64);
    chars_of(s.as_str())
}

/// The `Host` header is there and names our address (protection against
/// DNS rebinding); a request without one is refused.
pub fn host_ok(h: &Headers, port: u16) -> (r: bool)
    ensures
        r == match h.host {
            Some(host) => our_host(host@, port),
            None => false,
        },
{
    match &h.host {
        Some(host) => {
            let c = chars_of(host.as_str());
            chars_eq(&c, &with_port("127.0.0.1:", port)) || chars_eq(&c, &with_port("localhost:", port))
        },
        None => false,
    }
}

/// The `Origin` header, when there is one, is ours; `null` is refused.
pub fn origin_ok(h: &Headers, port: u16) -> (r: bool)
    ensures
        r == match h.origin {
            None => true,
            Some(o) => o@ != "null"@ && our_origin(o@, port),
        },
{
    match &h.origin {
        None => true,
        Some(o) => {
            let c = chars_of(o.as_str());
            if text_is(&c, "null") {
                return false;
            }
            chars_eq(&c, &with_port("http://127.0.0.1:", port)) || chars_eq(
                &c,
                &with_port("http://localhost:", port),
            ) || text_is(&c, "tauri://localhost")
        },
    }
}

/// The token came in the cookie, in the `X-Stratum-Token` header or in the
/// `token` parameter of the query.
pub fn token_ok(h: &Headers, query_token: Option<&str>, token: &str) -> (r: bool)
    ensures
        r == ((h.spec_cookie_token() matches Some(c) && c == token@) || (h.token matches Some(t)
            && t@ == token@) || (query_token matches Some(q) && q@ == token@)),
{
    let from_cookie = match h.cookie_token() {
        Some(c) => same(c.as_str(), token),
        None => false,
    };
    let from_header = match &h.token {
        Some(t) => same(t.as_str(), token),
        None => false,
    };
    let from_query = match query_token {
        Some(q) => same(q, token),
        None => false,
    };
    from_cookie || from_header || from_query
}

} // verus!
