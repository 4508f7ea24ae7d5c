//! Web addresses.

use vstd::prelude::*;
use vstd::string::StringExecFns;

use crate::text::{
    chars_of, decimal, ends_with, has_prefix, has_suffix, joined, lemma_skip_back, only, opt_view,
    part, pieces, push_decimal, split, starts_with, trim_end_char, trimmed_end, views,
};
use crate::utils::{attribute_decoded, decode_html_attribute};

verus! {

/// The parts of a parsed URL.
#[derive(Debug)]
pub struct UrlParts {
    /// The URL as it is written out.
    pub text: String,
    pub scheme: String,
    pub host: Option<String>,
    /// The port, unless it is the one that the scheme implies.
    pub port: Option<u16>,
    pub path: String,
    /// The names and values of the query, decoded.
    pub query: Vec<QueryPair>,
}

/// One name and value of a query.
#[derive(Debug)]
pub struct QueryPair {
    pub name: String,
    pub value: String,
}

/// What a parsed URL is.
pub struct UrlModel {
    pub text: Seq<char>,
    pub scheme: Seq<char>,
    pub host: Option<Seq<char>>,
    pub port: Option<u16>,
    pub path: Seq<char>,
    pub query: Seq<(Seq<char>, Seq<char>)>,
}

impl View for UrlParts {
    type V = UrlModel;

    open spec fn view(&self) -> UrlModel {
        UrlModel {
            text: self.text@,
            scheme: self.scheme@,
            host: opt_view(self.host),
            port: self.port,
            path: self.path@,
            query: Seq::new(
                self.query@.len(),
                |i: int| (self.query@[i].name@, self.query@[i].value@),
            ),
        }
    }
}

/// The URL that `url::Url::parse` reads from a text.
pub uninterp spec fn url_read(text: Seq<char>) -> Option<UrlModel>;

/// The URL that `url::Url::join` makes of a base and a relative reference,
/// written out.
pub uninterp spec fn url_joined(base: Seq<char>, reference: Seq<char>) -> Option<Seq<char>>;

/// `url::Url::parse`: the parts of an absolute URL, as the accessors of
/// `url::Url` give them; none where the text is not one.
#[verifier::external_body]
pub(crate) fn parse_url(text: &str) -> (r: Option<UrlParts>)
    ensures
        match r {
            Some(u) => url_read(text@) == Some(u@),
            None => url_read(text@) is None,
        },
{
    let u = url::Url::parse(text).ok()?;
    Some(UrlParts {
        text: u.to_string(),
        scheme: u.scheme().to_owned(),
        host: u.host_str().map(str::to_owned),
        port: u.port(),
        path: u.path().to_owned(),
        query: u
            .query_pairs()
            .map(|(k, v)| QueryPair { name: k.into_owned(), value: v.into_owned() })
            .collect(),
    })
}

/// `url::Url::join` on the URL that `base` reads as: the reference resolved
/// against it, written out; none where either cannot be read.
#[verifier::external_body]
pub(crate) fn join_url(base: &str, reference: &str) -> (r: Option<String>)
    ensures
        opt_view(r) == url_joined(base@, reference@),
{
    Some(url::Url::parse(base).ok()?.join(reference).ok()?.to_string())
}

impl UrlModel {
    /// The scheme, host and port of a URL.
    pub open spec fn origin(self) -> Seq<char> {
        let host = match self.host {
            Some(h) => match self.port {
                Some(p) => h + ":"@ + decimal(p as nat),
                None => h,
            },
            None => ""@,
        };
        self.scheme + "://"@ + host
    }

    /// The segments of the path; none where the path does not start with a
    /// slash.
    pub open spec fn segments(self) -> Option<Seq<Seq<char>>> {
        if has_prefix(self.path, "/"@) {
            Some(pieces(self.path.skip(1), '/'))
        } else {
            None
        }
    }

    /// The last segment of the path; none where the path does not start with
    /// a slash.
    pub open spec fn last_segment(self) -> Option<Seq<char>> {
        match self.segments() {
            Some(s) => Some(s.last()),
            None => None,
        }
    }
}

/// A slash-rooted path on the server of a base URL. The base's own path, its
/// context, comes first unless the path starts with it already.
pub open spec fn rooted(base: UrlModel, path: Seq<char>) -> Seq<char> {
    let context = trimmed_end(base.path, only('/'));
    if context.len() > 0 && !has_prefix(path, context + "/"@) {
        base.origin() + context + path
    } else {
        base.origin() + path
    }
}

impl UrlParts {
    /// The scheme, host and port of a URL.
    pub fn origin(&self) -> (r: String)
        ensures
            r@ == self@.origin(),
    {
        let mut out: String = self.scheme.clone();
        out.append("://");
        let ghost head = out@;
        match &self.host {
            Some(h) => {
                let mut host: String = h.clone();
                if let Some(p) = self.port {
                    host.append(":");
                    push_decimal(&mut host, p as usize);
                }
                out.append(&host);
            },
            None => {
                out.append("");
            },
        }
        out
    }

    /// A slash-rooted path on the server of this URL.
    pub fn rooted(&self, path: &str) -> (r: String)
        ensures
            r@ == rooted(self@, path@),
    {
        let context = trim_end_char(&self.path, '/');
        let mut out: String = self.origin();
        if chars_of(&context).len() > 0 && !starts_with(path, &joined(&context, "/")) {
            out.append(&context);
        }
        out.append(path);
        out
    }

    /// The segments of the path; none where the path does not start with a
    /// slash.
    pub fn segments(&self) -> (r: Option<Vec<String>>)
        ensures
            match r {
                Some(v) => self@.segments() == Some(views(v@)) && v@.len() >= 1,
                None => self@.segments() is None,
            },
    {
        if !starts_with(&self.path, "/") {
            return None;
        }
        proof {
            reveal_strlit("/");
        }
        let t = chars_of(&self.path);
        let rest = part(&t, 1, t.len());
        assert(rest@ =~= t@.skip(1));
        let parts = split(&rest, '/');
        assert(views(parts@).len() >= 1);
        Some(parts)
    }

    /// The last segment of the path; none where the path does not start with
    /// a slash.
    pub fn last_segment(&self) -> (r: Option<String>)
        ensures
            opt_view(r) == self@.last_segment(),
    {
        match self.segments() {
            Some(parts) => {
                assert(views(parts@).last() == parts[parts.len() - 1]@);
                Some(parts[parts.len() - 1].clone())
            },
            None => None,
        }
    }
}

/// The base with a slash at its end.
pub open spec fn with_slash(base: Seq<char>) -> Seq<char> {
    if has_suffix(base, "/"@) {
        base
    } else {
        base + "/"@
    }
}

/// A reference resolved, given what it reads as by itself, what the base URL
/// reads as, and what comes of joining it to the base: an absolute URL stands
/// for itself, a rooted path goes to the base's server and context, and
/// anything else is joined to the base. Where nothing can be read, the
/// reference stays as it is.
pub open spec fn resolution(
    reference: Seq<char>,
    absolute: Option<UrlModel>,
    base: Option<UrlModel>,
    joined: Option<Seq<char>>,
) -> Seq<char> {
    match absolute {
        Some(u) => u.text,
        None => match base {
            Some(b) => if has_prefix(reference, "/"@) {
                rooted(b, reference)
            } else {
                match joined {
                    Some(u) => u,
                    None => reference,
                }
            },
            None => reference,
        },
    }
}

/// What an optional URL is.
pub open spec fn url_view(u: Option<UrlParts>) -> Option<UrlModel> {
    match u {
        Some(p) => Some(p@),
        None => None,
    }
}

/// A reference resolved, given what it reads as by itself, what the base URL
/// reads as, and what comes of joining it to the base.
pub fn choose_resolution(
    reference: String,
    absolute: Option<UrlParts>,
    base: Option<UrlParts>,
    joined: Option<String>,
) -> (r: String)
    ensures
        r@ == resolution(reference@, url_view(absolute), url_view(base), opt_view(joined)),
{
    if let Some(u) = absolute {
        return u.text;
    }
    match base {
        Some(b) => {
            if starts_with(&reference, "/") {
                return b.rooted(&reference);
            }
            match joined {
                Some(u) => u,
                None => reference,
            }
        },
        None => reference,
    }
}

/// A reference resolved against a base URL.
pub open spec fn resolved(src: Seq<char>, base_url: Seq<char>) -> Seq<char> {
    let decoded = attribute_decoded(src);
    resolution(
        decoded,
        url_read(decoded),
        url_read(base_url),
        url_joined(with_slash(base_url), decoded),
    )
}

/// Resolves a possibly relative URL against the configured Confluence base
/// URL, taking the base's context path into account.
pub fn resolve_url(src: &str, base_url: &str) -> (r: String)
    ensures
        r@ == resolved(src@, base_url@),
{
    let decoded = decode_html_attribute(src);
    let directory = if ends_with(base_url, "/") {
        base_url.to_owned()
    } else {
        joined(base_url, "/")
    };
    let absolute = parse_url(&decoded);
    let base = parse_url(base_url);
    let together = join_url(&directory, &decoded);
    choose_resolution(decoded, absolute, base, together)
}

/// A normalised base URL ends in no slash, and normalising it again changes
/// nothing.
pub proof fn law_base_url_normal_form(t: Seq<char>)
    ensures
        ({
            let n = trimmed_end(t, only('/'));
            &&& n.len() > 0 ==> n.last() != '/'
            &&& trimmed_end(n, only('/')) == n
        }),
{
    let n = trimmed_end(t, only('/'));
    lemma_skip_back(t, only('/'), t.len() as int);
    lemma_skip_back(n, only('/'), n.len() as int);
    assert(trimmed_end(n, only('/')) =~= n);
}

} // verus!
