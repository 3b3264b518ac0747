//! The observer API client: endpoints, request planning, and the reading of
//! responses and failures. The HTTP exchange itself happens outside.

use vstd::prelude::*;
use crate::api::types::{SpendCheckRequest, SpendInfoResponse};
use crate::models::note::SpendInfo;
use crate::text::{decimal_string, spec_decimal, str_chars};

verus! {

/// Why a request to the observer failed.
#[derive(Debug)]
pub enum ApiError {
    Network(String),
    Parse(String),
    Api(String),
}

/// The observer endpoint most deployments use.
pub open spec fn default_observer_url() -> Seq<char> {
    "https://observer.fedimint.org/api"@
}

/// The text shown for an API error.
pub open spec fn spec_api_error_message(e: ApiError) -> Seq<char> {
    match e {
        ApiError::Network(m) => "Network error: "@ + m@,
        ApiError::Parse(m) => "Failed to parse response: "@ + m@,
        ApiError::Api(m) => "API error: "@ + m@,
    }
}

impl ApiError {
    /// The text shown for this error.
    pub fn message(&self) -> (res: String)
        ensures
            res@ == spec_api_error_message(*self),
    {
        let (prefix, m) = match self {
            ApiError::Network(m) => ("Network error: ", m),
            ApiError::Parse(m) => ("Failed to parse response: ", m),
            ApiError::Api(m) => ("API error: ", m),
        };
        let mut s = String::from_str(prefix);
        s.append(m.as_str());
        s
    }
}

/// A client of one observer, identified by its base URL.
pub struct ObserverClient {
    base_url: String,
}

impl View for ObserverClient {
    type V = Seq<char>;

    closed spec fn view(&self) -> Seq<char> {
        self.base_url@
    }
}

impl Default for ObserverClient {
    fn default() -> (res: Self)
        ensures
            res@ == default_observer_url(),
    {
        Self::new(String::from_str("https://observer.fedimint.org/api"))
    }
}

/// `pat` occurs in `s` as a contiguous run of characters.
pub open spec fn contains_seq(s: Seq<char>, pat: Seq<char>) -> bool {
    exists|i: int| 0 <= i <= s.len() - pat.len() && #[trigger] s.subrange(i, i + pat.len()) == pat
}

fn contains_chars(s: &Vec<char>, pat: &Vec<char>) -> (res: bool)
    ensures
        res == contains_seq(s@, pat@),
{
    if pat.len() > s.len() {
        return false;
    }
    let n = s.len();
    let mut i: usize = 0;
    while i <= s.len() - pat.len()
        invariant
            n == s@.len(),
            pat@.len() <= s@.len(),
            i <= s@.len() - pat@.len() + 1,
            forall|k: int| 0 <= k < i ==> #[trigger] s@.subrange(k, k + pat@.len()) != pat@,
        decreases s@.len() - pat@.len() + 1 - i,
    {
        let mut j: usize = 0;
        let mut same = true;
        while j < pat.len()
            invariant
                j <= pat@.len(),
                n == s@.len(),
                i + pat@.len() <= s@.len(),
                same == forall|m: int| 0 <= m < j ==> s@[i + m] == pat@[m],
            decreases pat@.len() - j,
        {
            if s[i + j] != pat[j] {
                same = false;
            }
            j = j + 1;
        }
        if same {
            assert(s@.subrange(i as int, i + pat@.len()) =~= pat@);
            return true;
        }
        assert(s@.subrange(i as int, i + pat@.len()) != pat@) by {
            let m = choose|m: int| 0 <= m < pat@.len() && s@[i + m] != pat@[m];
            assert(s@.subrange(i as int, i + pat@.len())[m] == s@[i + m]);
        }
        i = i + 1;
    }
    false
}

/// The message shown when the browser refuses a cross-origin request.
pub open spec fn msg_cors() -> Seq<char> {
    "Request failed - the observer API may not support browser requests (CORS). Try using a CORS proxy."@
}

/// The network error for a failed request with the given error text: a
/// hint about CORS when the text looks like a browser fetch failure, else
/// the text itself.
pub fn network_error(err_text: &str) -> (res: ApiError)
    ensures
        res matches ApiError::Network(m) && m@ == (if contains_seq(err_text@, "NetworkError"@)
            || contains_seq(err_text@, "Failed to fetch"@) {
            msg_cors()
        } else {
            err_text@
        }),
{
    let text = str_chars(err_text);
    let a = str_chars("NetworkError");
    let b = str_chars("Failed to fetch");
    if contains_chars(&text, &a) || contains_chars(&text, &b) {
        ApiError::Network(
            String::from_str(
                "Request failed - the observer API may not support browser requests (CORS). Try using a CORS proxy.",
            ),
        )
    } else {
        ApiError::Network(String::from_str(err_text))
    }
}

/// The error for an HTTP response with a failure status.
pub fn http_error(status: u16, text: &str) -> (res: ApiError)
    ensures
        res matches ApiError::Api(m) && m@ == "HTTP "@ + spec_decimal(status as nat) + ": "@ + text@,
{
    let mut m = String::from_str("HTTP ");
    let s = decimal_string(status as u64);
    m.append(s.as_str());
    m.append(": ");
    m.append(text);
    ApiError::Api(m)
}

/// The spend results of a response, in the order given.
pub fn spend_results(entries: Vec<(String, SpendInfoResponse)>) -> (res: Vec<(String, SpendInfo)>)
    ensures
        res@.len() == entries@.len(),
        forall|i: int|
            0 <= i < entries@.len() ==> {
                &&& (#[trigger] res@[i]).0 == entries@[i].0
                &&& res@[i].1.session_index == entries@[i].1.session_index
                &&& res@[i].1.estimated_timestamp == entries@[i].1.estimated_timestamp
            },
{
    let mut res: Vec<(String, SpendInfo)> = Vec::new();
    let mut i: usize = 0;
    while i < entries.len()
        invariant
            i <= entries@.len(),
            res@.len() == i,
            forall|k: int|
                0 <= k < i ==> {
                    &&& (#[trigger] res@[k]).0 == entries@[k].0
                    &&& res@[k].1.session_index == entries@[k].1.session_index
                    &&& res@[k].1.estimated_timestamp == entries@[k].1.estimated_timestamp
                },
        decreases entries@.len() - i,
    {
        let nonce = entries[i].0.clone();
        let info = SpendInfo {
            session_index: entries[i].1.session_index,
            estimated_timestamp: entries[i].1.estimated_timestamp,
        };
        res.push((nonce, info));
        i = i + 1;
    }
    res
}

impl ObserverClient {
    pub fn new(base_url: String) -> (res: Self)
        ensures
            res@ == base_url@,
    {
        Self { base_url }
    }

    /// The endpoint that reports which nonces are spent.
    pub fn spend_check_url(&self, federation_id: &str) -> (res: String)
        ensures
            res@ == self@ + "/federations/"@ + federation_id@ + "/nonces/spend"@,
    {
        let mut url = self.base_url.clone();
        url.append("/federations/");
        url.append(federation_id);
        url.append("/nonces/spend");
        url
    }

    /// The endpoint that lists the federations the observer follows.
    pub fn federations_url(&self) -> (res: String)
        ensures
            res@ == self@ + "/federations"@,
    {
        let mut url = self.base_url.clone();
        url.append("/federations");
        url
    }

    /// The endpoint with the metadata of a federation.
    pub fn federation_meta_url(&self, federation_id: &str) -> (res: String)
        ensures
            res@ == self@ + "/federations/"@ + federation_id@ + "/meta"@,
    {
        let mut url = self.base_url.clone();
        url.append("/federations/");
        url.append(federation_id);
        url.append("/meta");
        url
    }

    /// What a spend check needs to send: nothing when there are no nonces
    /// (the answer is then empty), else the endpoint and the request body.
    pub fn spend_check_request(&self, federation_id: &str, nonces: Vec<String>) -> (res: Option<(String, SpendCheckRequest)>)
        ensures
            nonces@.len() == 0 <==> res is None,
            res matches Some((url, req)) ==> url@ == self@ + "/federations/"@ + federation_id@
                + "/nonces/spend"@ && req.nonces == nonces,
    {
        if nonces.len() == 0 {
            return None;
        }
        let url = self.spend_check_url(federation_id);
        Some((url, SpendCheckRequest { nonces }))
    }
}

} // verus!
