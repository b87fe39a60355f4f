use vstd::prelude::*;
use crate::store::keep;
use crate::store::lemma_views_push;
use crate::store::views;

verus! {

/// One request header as edited by the user: it is sent only while
/// `enabled` and named.
#[derive(Debug)]
pub struct HeaderEntry {
    pub key: String,
    pub value: String,
    pub enabled: bool,
}

#[verifier::ext_equal]
pub ghost struct HeaderEntryView {
    pub key: Seq<char>,
    pub value: Seq<char>,
    pub enabled: bool,
}

impl View for HeaderEntry {
    type V = HeaderEntryView;

    open spec fn view(&self) -> HeaderEntryView {
        HeaderEntryView { key: self.key@, value: self.value@, enabled: self.enabled }
    }
}

impl Clone for HeaderEntry {
    fn clone(&self) -> (res: Self)
        ensures
            res@ == self@,
    {
        HeaderEntry { key: self.key.clone(), value: self.value.clone(), enabled: self.enabled }
    }
}

/// An outbound request as handed to the transport layer.
#[derive(Debug)]
pub struct HttpRequest {
    pub method: String,
    pub url: String,
    pub headers: Vec<HeaderEntry>,
    pub body: Option<String>,
}

/// Transport settings for one request.
#[derive(Debug)]
pub struct HttpConfig {
    pub timeout_ms: Option<u64>,
    pub proxy_url: Option<String>,
    pub verify_ssl: Option<bool>,
}

/// The response handed back by the transport layer.  Headers come as a
/// list of pairs (all enabled), not a map: reading them in arrival
/// order keeps the type plain.
#[derive(Debug)]
pub struct HttpResponse {
    pub status: u16,
    pub status_text: String,
    pub headers: Vec<HeaderEntry>,
    pub body: String,
    pub time_ms: u64,
    pub size_bytes: u64,
}

/// A header is sent exactly when it is enabled and has a name.
pub open spec fn sendable_pred() -> spec_fn(HeaderEntryView) -> bool {
    |h: HeaderEntryView| h.enabled && h.key.len() > 0
}

/// The headers that actually go out with a request: the enabled, named
/// ones, in their edited order.
pub fn enabled_headers(headers: &Vec<HeaderEntry>) -> (r: Vec<HeaderEntry>)
    ensures
        views(r@) == keep(views(headers@), sendable_pred()),
{
    let ghost s0 = views(headers@);
    let mut out: Vec<HeaderEntry> = Vec::new();
    let mut i: usize = 0;
    proof {
        assert(views(out@) =~= keep(s0.take(0), sendable_pred()));
    }
    while i < headers.len()
        invariant
            i <= headers@.len(),
            s0 == views(headers@),
            headers@.len() == s0.len(),
            views(out@) == keep(s0.take(i as int), sendable_pred()),
        decreases headers@.len() - i,
    {
        proof {
            assert(s0.take(i + 1 as int).drop_last() =~= s0.take(i as int));
            assert(s0.take(i + 1 as int).last() == s0[i as int]);
        }
        let h = &headers[i];
        if h.enabled && !h.key.as_str().is_empty() {
            let ghost vout = out@;
            out.push(h.clone());
            proof {
                lemma_views_push(vout, out@[vout.len() as int]);
                assert(views(out@) =~= keep(s0.take(i + 1 as int), sendable_pred()));
            }
        }
        i = i + 1;
    }
    proof {
        assert(s0.take(s0.len() as int) =~= s0);
    }
    out
}

} // verus!
