use vstd::prelude::*;
use vstd::string::*;
use crate::object::compare_keys;
use crate::text::Order;

verus! {

/// A header of a request.
pub struct Header {
    /// Name of the header.
    pub name: String,
    /// Value of the header.
    pub value: String,
}

/// What of a request tells where it came from.
pub struct Request {
    /// Client address: the host, a colon, and what follows the host.
    pub address: String,
    /// Request headers.
    pub headers: Vec<Header>,
}

/// The first position from `from` on that holds `sep`, or the end of the
/// text.
pub open spec fn index_of(t: Seq<char>, sep: char, from: int) -> int
    decreases t.len() - from,
{
    if 0 <= from < t.len() && t[from] != sep {
        index_of(t, sep, from + 1)
    } else {
        from
    }
}

/// Whether the text holds `sep`.
pub open spec fn holds(t: Seq<char>, sep: char) -> bool {
    index_of(t, sep, 0) < t.len()
}

/// The text in front of the first `sep`.
pub open spec fn before(t: Seq<char>, sep: char) -> Seq<char> {
    t.take(index_of(t, sep, 0))
}

/// The value of the first header from `from` on that is named
/// `X-Forwarded-For`.
pub open spec fn forwarded_for(headers: Seq<Header>, from: int) -> Option<Seq<char>>
    decreases headers.len() - from,
{
    if from < 0 || from >= headers.len() {
        None
    } else if headers[from].name@ == "X-Forwarded-For"@ {
        Some(headers[from].value@)
    } else {
        forwarded_for(headers, from + 1)
    }
}

/// The address that the request came from: the host of the client address,
/// unless that is the local host and a proxy has named the client, which is
/// then the first entry of the `X-Forwarded-For` header.
pub open spec fn client_of(req: Request) -> Seq<char> {
    if before(req.address@, ':') != "127.0.0.1"@ {
        before(req.address@, ':')
    } else {
        match forwarded_for(req.headers@, 0) {
            Some(value) => before(value, ','),
            None => before(req.address@, ':'),
        }
    }
}

/// Whether the request is one that [`real_ip`] reads: the client address
/// holds a colon, and where the header is consulted its value holds a comma.
pub open spec fn is_addressed(req: Request) -> bool {
    &&& holds(req.address@, ':')
    &&& before(req.address@, ':') == "127.0.0.1"@ ==> match forwarded_for(req.headers@, 0) {
        Some(value) => holds(value, ','),
        None => true,
    }
}

/// The text in front of the first `sep`, if `s` holds one.
pub fn split_before<'a>(s: &'a str, sep: char) -> (r: Option<&'a str>)
    ensures
        match r {
            Some(head) => holds(s@, sep) && head@ == before(s@, sep),
            None => !holds(s@, sep),
        },
{
    let n = s.unicode_len();
    let mut k: usize = 0;
    for c in it: s.chars()
        invariant
            it.seq() == s@,
            n == s@.len(),
            k == it.index(),
            k <= n,
            index_of(s@, sep, 0) == index_of(s@, sep, k as int),
    {
        if c == sep {
            return Some(s.substring_char(0, k));
        }
        k += 1;
    }
    None
}

/// The address that the request came from.
#[verifier::loop_isolation(false)]
pub fn real_ip<'a>(req: &'a Request) -> (r: &'a str)
    requires
        is_addressed(*req),
    ensures
        r@ == client_of(*req),
{
    let host = match split_before(req.address.as_str(), ':') {
        Some(head) => head,
        None => {
            // `is_addressed` rules this out
            return req.address.as_str();
        },
    };
    match compare_keys(host, "127.0.0.1") {
        Order::Equal => {},
        _ => {
            return host;
        },
    }
    let mut i: usize = 0;
    while i < req.headers.len()
        invariant
            i <= req.headers.len(),
            forwarded_for(req.headers@, 0) == forwarded_for(req.headers@, i as int),
        decreases req.headers.len() - i,
    {
        match compare_keys(req.headers[i].name.as_str(), "X-Forwarded-For") {
            Order::Equal => {
                return match split_before(req.headers[i].value.as_str(), ',') {
                    Some(head) => head,
                    None => host,
                };
            },
            _ => {},
        }
        i += 1;
    }
    host
}

} // verus!
