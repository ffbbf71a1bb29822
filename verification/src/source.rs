//! Where a document's text lives: the registry URLs derived from its
//! identifier.
//!
//! The URL text is held as plain characters; whether a candidate URL is
//! well-formed is decided by the `url` crate behind a trusted wrapper.

use vstd::prelude::*;

use crate::error::DocError;
use crate::strutil::concat_str;

verus! {

/// Whether `url::Url::parse` accepts a character sequence; the verdict
/// depends on the characters alone.
pub uninterp spec fn url_accepts(s: Seq<char>) -> bool;

/// Relies on `url::Url::parse`: it accepts or rejects a URL string by its
/// text alone; on rejection the parse error's description is returned.
#[verifier::external_body]
fn url_check(s: &str) -> (r: Option<String>)
    ensures
        r is None <==> url_accepts(s@),
{
    match url::Url::parse(s) {
        Ok(_) => None,
        Err(e) => Some(format!("{}", e)),
    }
}

/// The abstract content of a [`SourceUrl`].
pub struct SourceUrlView {
    pub id: Seq<char>,
    pub html: Seq<char>,
}

/// A document's identifier together with the URL of its registry page.
#[derive(Debug, Clone, PartialEq, Eq)]
pub struct SourceUrl {
    id: String,
    html: String,
}

impl View for SourceUrl {
    type V = SourceUrlView;

    closed spec fn view(&self) -> SourceUrlView {
        SourceUrlView { id: self.id@, html: self.html@ }
    }
}

/// The registry page URL for an identifier.
pub open spec fn html_url_of(id: Seq<char>) -> Seq<char> {
    "https://datatracker.ietf.org/doc/"@ + id
}

/// The URL of the XML source for an identifier.
pub open spec fn xml_url_of(id: Seq<char>, is_rfc: bool) -> Seq<char> {
    if is_rfc {
        "https://www.rfc-editor.org/rfc/"@ + id + ".xml"@
    } else {
        "https://www.ietf.org/archive/id/"@ + id + ".xml"@
    }
}

/// The URL of the plain-text source for an identifier.
pub open spec fn raw_url_of(id: Seq<char>, is_rfc: bool) -> Seq<char> {
    if is_rfc {
        "https://www.rfc-editor.org/rfc/"@ + id + ".txt"@
    } else {
        "https://www.ietf.org/archive/id/"@ + id + ".txt"@
    }
}

impl SourceUrl {
    /// Build the source record for an identifier; fails exactly when the
    /// registry page URL derived from it is not a well-formed URL.
    pub fn new(id: &String) -> (r: Result<Self, DocError>)
        ensures
            r matches Ok(u) ==> u@.id == id@ && u@.html == html_url_of(id@),
            r is Ok <==> url_accepts(html_url_of(id@)),
            r matches Err(e) ==> e is Url,
    {
        let html = concat_str("https://datatracker.ietf.org/doc/", id.as_str());
        match url_check(html.as_str()) {
            None => Ok(SourceUrl { id: id.clone(), html }),
            Some(msg) => Err(DocError::Url(msg)),
        }
    }

    /// Reassemble a record from stored parts, without re-validation; meant
    /// for deserialization paths that trust their input.
    pub fn from_parts(id: String, html: String) -> (r: Self)
        ensures
            r@.id == id@,
            r@.html == html@,
    {
        SourceUrl { id, html }
    }

    /// The registry page URL.
    pub fn html(&self) -> (r: &str)
        ensures
            r@ == self@.html,
    {
        self.html.as_str()
    }

    /// The URL of the XML source; fails exactly when the derived URL text is
    /// not well-formed.
    pub fn xml(&self, is_rfc: bool) -> (r: Result<String, DocError>)
        ensures
            r matches Ok(u) ==> u@ == xml_url_of(self@.id, is_rfc),
            r is Ok <==> url_accepts(xml_url_of(self@.id, is_rfc)),
            r matches Err(e) ==> e is Url,
    {
        let base = if is_rfc {
            concat_str("https://www.rfc-editor.org/rfc/", self.id.as_str())
        } else {
            concat_str("https://www.ietf.org/archive/id/", self.id.as_str())
        };
        let full = concat_str(base.as_str(), ".xml");
        match url_check(full.as_str()) {
            None => Ok(full),
            Some(msg) => Err(DocError::Url(msg)),
        }
    }

    /// The URL of the plain-text source; fails exactly when the derived URL
    /// text is not well-formed.
    pub fn raw(&self, is_rfc: bool) -> (r: Result<String, DocError>)
        ensures
            r matches Ok(u) ==> u@ == raw_url_of(self@.id, is_rfc),
            r is Ok <==> url_accepts(raw_url_of(self@.id, is_rfc)),
            r matches Err(e) ==> e is Url,
    {
        let base = if is_rfc {
            concat_str("https://www.rfc-editor.org/rfc/", self.id.as_str())
        } else {
            concat_str("https://www.ietf.org/archive/id/", self.id.as_str())
        };
        let full = concat_str(base.as_str(), ".txt");
        match url_check(full.as_str()) {
            None => Ok(full),
            Some(msg) => Err(DocError::Url(msg)),
        }
    }

    /// The last segment of the stored URL text: everything after the final
    /// `/`, one trailing `/` ignored.  Fails exactly when the text is empty.
    pub fn get_id(&self) -> (r: Result<&str, DocError>)
        ensures
            r is Ok <==> self@.html.len() > 0,
            r matches Ok(seg) ==> seg@ == last_segment(self@.html),
            r matches Err(e) ==> e is Url,
    {
        let n = self.html.as_str().unicode_len();
        if n == 0 {
            return Err(DocError::Url(String::from_str("empty source url")));
        }
        let last = self.html.as_str().get_char(n - 1);
        let end = if last == '/' { n - 1 } else { n };
        let mut i: usize = end;
        while i > 0
            invariant
                i <= end,
                end <= n,
                n == self@.html.len(),
                end == seg_end(self@.html),
                forall|j: int| i <= j < end ==> self@.html[j] != '/',
            decreases i,
        {
            let c = self.html.as_str().get_char(i - 1);
            if c == '/' {
                let seg = self.html.as_str().substring_char(i, end);
                proof {
                    assert(seg@ =~= last_segment(self@.html)) by {
                        lemma_last_slash(self@.html, i as int);
                    }
                }
                return Ok(seg);
            }
            i = i - 1;
        }
        let seg = self.html.as_str().substring_char(0, end);
        proof {
            assert(seg@ =~= last_segment(self@.html)) by {
                lemma_last_slash(self@.html, 0);
            }
        }
        Ok(seg)
    }
}

/// Where the last segment of a URL text ends: its length, one trailing `/`
/// ignored.
pub open spec fn seg_end(s: Seq<char>) -> int {
    if s.len() > 0 && s.last() == '/' {
        s.len() - 1
    } else {
        s.len() as int
    }
}

/// Where the last segment of a URL text starts: just after the last `/`
/// before [`seg_end`], or at the very start.
pub open spec fn seg_start(s: Seq<char>) -> int {
    if exists|j: int| 0 <= j < seg_end(s) && s[j] == '/' {
        (choose|j: int|
            0 <= j < seg_end(s) && s[j] == '/'
                && forall|k: int| j < k < seg_end(s) ==> s[k] != '/') + 1
    } else {
        0
    }
}

/// The last segment of a URL text.
pub open spec fn last_segment(s: Seq<char>) -> Seq<char> {
    s.subrange(seg_start(s), seg_end(s))
}

/// If no `/` occurs from `i` to the segment's end, and either `i` is the
/// start or a `/` sits just before `i`, then the segment starts at `i`.
proof fn lemma_last_slash(s: Seq<char>, i: int)
    requires
        0 <= i <= seg_end(s),
        forall|j: int| i <= j < seg_end(s) ==> s[j] != '/',
        i > 0 ==> s[i - 1] == '/' && i - 1 < seg_end(s),
    ensures
        seg_start(s) == i,
{
    if i > 0 {
        assert(exists|j: int| 0 <= j < seg_end(s) && s[j] == '/');
        let w = i - 1;
        assert(0 <= w < seg_end(s) && s[w] == '/'
            && forall|k: int| w < k < seg_end(s) ==> s[k] != '/');
        let j0 = choose|j: int|
            0 <= j < seg_end(s) && s[j] == '/'
                && forall|k: int| j < k < seg_end(s) ==> s[k] != '/';
        if j0 < w {
            assert(s[w] != '/');
            assert(false);
        }
        if j0 > w {
            assert(s[j0] != '/');
            assert(false);
        }
    } else {
        if exists|j: int| 0 <= j < seg_end(s) && s[j] == '/' {
            let j0 = choose|j: int| 0 <= j < seg_end(s) && s[j] == '/';
            assert(s[j0] != '/');
            assert(false);
        }
    }
}

} // verus!
