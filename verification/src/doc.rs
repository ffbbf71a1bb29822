//! The concrete document model: a registry document's summary, its relation
//! metadata, and the stateful record a cache entry holds.
//!
//! Relation metadata embeds [`CacheReference`]s to other documents by
//! identifier; the resolution algorithm reads and re-tags them through the
//! [`RelationalEntry`] implementation at the bottom of this module.

use vstd::prelude::*;

use crate::cache::{Cache, CacheReference};
use crate::error::DocError;
use crate::order::CacheIdentifier;
use crate::resolve::{
    changes_view, entries_bounded, has_unknown_key, lemma_delta_sum_absent, lemma_delta_sum_at,
    lemma_refs_concat, lemma_unknown_count_bounds, lemma_unknown_count_concat,
    lemma_unknown_set_concat, refs_agree, same_ref_keys, tags_consistent, unknown_count,
    unknown_key_set, KeySet, RelationalEntry, REFS_BOUND,
};
use crate::source::{SourceUrl, SourceUrlView};
use crate::strutil::{
    ascii_lower, ascii_lowercase_str, concat_str, lower_of, lowercase, remove_spaces,
    split_commas, split_commas_str, str_eq_str, strip_spaces, trim_of, trimmed,
};

verus! {

/// Documents are identified by their registry name.
pub type DocIdentifier = String;

/// What [`name_to_id`] computes for a given character sequence: spaces
/// removed, then the standard library's case folding.
pub open spec fn name_to_id_spec(s: Seq<char>) -> Seq<char> {
    lower_of(strip_spaces(s))
}

/// Normalize a document name into its identifier: drop spaces, lowercase.
pub fn name_to_id(name: &str) -> (r: DocIdentifier)
    ensures
        r@ == name_to_id_spec(name@),
{
    let stripped = remove_spaces(name);
    lowercase(stripped.as_str())
}

/// One piece of relation metadata.  The list variants hold one reference per
/// related document; `Was` and `AlsoKnownAs` name aliases, not relations.
///
/// A list may in principle name the same key twice; references are counted
/// as a multiset, so such a duplicate counts twice in relation and
/// missing-reference counts.  The parsers below keep whatever the source
/// lists, deliberately: de-duplication is the concern of whoever writes the
/// metadata, not of the counts.
#[derive(Debug, Clone, PartialEq, Eq)]
pub enum Meta {
    Updates(Vec<CacheReference<DocIdentifier>>),
    UpdatedBy(Vec<CacheReference<DocIdentifier>>),
    Obsoletes(Vec<CacheReference<DocIdentifier>>),
    ObsoletedBy(Vec<CacheReference<DocIdentifier>>),
    AlsoKnownAs(DocIdentifier),
    Replaces(CacheReference<DocIdentifier>),
    ReplacedBy(CacheReference<DocIdentifier>),
    Was(DocIdentifier),
}

/// The abstract content of a [`Meta`]: references as key view and cached
/// belief, aliases as character sequences.
pub enum MetaView {
    Updates(Seq<(Seq<char>, bool)>),
    UpdatedBy(Seq<(Seq<char>, bool)>),
    Obsoletes(Seq<(Seq<char>, bool)>),
    ObsoletedBy(Seq<(Seq<char>, bool)>),
    AlsoKnownAs(Seq<char>),
    Replaces((Seq<char>, bool)),
    ReplacedBy((Seq<char>, bool)),
    Was(Seq<char>),
}

/// The views of a reference list.
pub open spec fn ref_views(l: Seq<CacheReference<DocIdentifier>>) -> Seq<(Seq<char>, bool)> {
    l.map_values(|r: CacheReference<DocIdentifier>| r@)
}

impl View for Meta {
    type V = MetaView;

    open spec fn view(&self) -> MetaView {
        match self {
            Meta::Updates(l) => MetaView::Updates(ref_views(l@)),
            Meta::UpdatedBy(l) => MetaView::UpdatedBy(ref_views(l@)),
            Meta::Obsoletes(l) => MetaView::Obsoletes(ref_views(l@)),
            Meta::ObsoletedBy(l) => MetaView::ObsoletedBy(ref_views(l@)),
            Meta::AlsoKnownAs(s) => MetaView::AlsoKnownAs(s@),
            Meta::Replaces(r) => MetaView::Replaces(r@),
            Meta::ReplacedBy(r) => MetaView::ReplacedBy(r@),
            Meta::Was(s) => MetaView::Was(s@),
        }
    }
}

/// A reference with its tag cleared.
pub open spec fn clear_ref(r: (Seq<char>, bool)) -> (Seq<char>, bool) {
    (r.0, false)
}

/// One piece of metadata with every reference tag cleared.
pub open spec fn clear_meta_tags(m: MetaView) -> MetaView {
    match m {
        MetaView::Updates(l) => MetaView::Updates(
            l.map_values(|r: (Seq<char>, bool)| clear_ref(r))),
        MetaView::UpdatedBy(l) => MetaView::UpdatedBy(
            l.map_values(|r: (Seq<char>, bool)| clear_ref(r))),
        MetaView::Obsoletes(l) => MetaView::Obsoletes(
            l.map_values(|r: (Seq<char>, bool)| clear_ref(r))),
        MetaView::ObsoletedBy(l) => MetaView::ObsoletedBy(
            l.map_values(|r: (Seq<char>, bool)| clear_ref(r))),
        MetaView::AlsoKnownAs(s) => MetaView::AlsoKnownAs(s),
        MetaView::Replaces(r) => MetaView::Replaces(clear_ref(r)),
        MetaView::ReplacedBy(r) => MetaView::ReplacedBy(clear_ref(r)),
        MetaView::Was(s) => MetaView::Was(s),
    }
}

/// A metadata sequence with every reference tag cleared.
pub open spec fn clear_metas_tags(ms: Seq<MetaView>) -> Seq<MetaView> {
    ms.map_values(|m: MetaView| clear_meta_tags(m))
}

/// The references one piece of metadata embeds.
pub open spec fn meta_refs(m: MetaView) -> Seq<(Seq<char>, bool)> {
    match m {
        MetaView::Updates(l) => l,
        MetaView::UpdatedBy(l) => l,
        MetaView::Obsoletes(l) => l,
        MetaView::ObsoletedBy(l) => l,
        MetaView::AlsoKnownAs(_) => Seq::empty(),
        MetaView::Replaces(r) => seq![r],
        MetaView::ReplacedBy(r) => seq![r],
        MetaView::Was(_) => Seq::empty(),
    }
}

/// How many related documents one piece of metadata names: list variants
/// count their entries, everything else counts one.
pub open spec fn meta_count_spec(m: MetaView) -> int {
    match m {
        MetaView::Updates(l) => l.len() as int,
        MetaView::UpdatedBy(l) => l.len() as int,
        MetaView::Obsoletes(l) => l.len() as int,
        MetaView::ObsoletedBy(l) => l.len() as int,
        MetaView::AlsoKnownAs(_) => 1,
        MetaView::Replaces(_) => 1,
        MetaView::ReplacedBy(_) => 1,
        MetaView::Was(_) => 1,
    }
}

/// The references of a metadata sequence, in order.
pub open spec fn metas_refs(ms: Seq<MetaView>) -> Seq<(Seq<char>, bool)>
    decreases ms.len(),
{
    if ms.len() == 0 {
        Seq::empty()
    } else {
        metas_refs(ms.drop_last()) + meta_refs(ms.last())
    }
}

/// The total relation count of a metadata sequence.
pub open spec fn metas_count(ms: Seq<MetaView>) -> int
    decreases ms.len(),
{
    if ms.len() == 0 {
        0
    } else {
        metas_count(ms.drop_last()) + meta_count_spec(ms.last())
    }
}

/// The views of a metadata list.
pub open spec fn meta_views(ms: Seq<Meta>) -> Seq<MetaView> {
    ms.map_values(|m: Meta| m@)
}

/// Extending a metadata prefix by one element appends its references and
/// adds its count.
pub proof fn lemma_metas_prefix(ms: Seq<MetaView>, i: int)
    requires
        0 <= i < ms.len(),
    ensures
        metas_refs(ms.subrange(0, i + 1)) == metas_refs(ms.subrange(0, i)) + meta_refs(ms[i]),
        metas_count(ms.subrange(0, i + 1)) == metas_count(ms.subrange(0, i))
            + meta_count_spec(ms[i]),
{
    assert(ms.subrange(0, i + 1).drop_last() =~= ms.subrange(0, i));
    assert(ms.subrange(0, i + 1).last() == ms[i]);
}

/// A prefix of the metadata never holds more references than the whole.
pub proof fn lemma_metas_refs_prefix_le(ms: Seq<MetaView>, i: int)
    requires
        0 <= i <= ms.len(),
    ensures
        metas_refs(ms.subrange(0, i)).len() <= metas_refs(ms).len(),
        0 <= metas_refs(ms.subrange(0, i)).len(),
    decreases ms.len() - i,
{
    if i == ms.len() {
        assert(ms.subrange(0, i) =~= ms);
    } else {
        lemma_metas_prefix(ms, i);
        lemma_metas_refs_prefix_le(ms, i + 1);
    }
}

impl Meta {
    /// How many related documents this metadata names.
    pub fn count(&self) -> (n: usize)
        ensures
            n as int == meta_count_spec(self@),
    {
        match self {
            Meta::Updates(l) => l.len(),
            Meta::UpdatedBy(l) => l.len(),
            Meta::Obsoletes(l) => l.len(),
            Meta::ObsoletedBy(l) => l.len(),
            Meta::AlsoKnownAs(_) => 1,
            Meta::Replaces(_) => 1,
            Meta::ReplacedBy(_) => 1,
            Meta::Was(_) => 1,
        }
    }
}

/// The references a scraped relation list denotes: the text lines at odd
/// positions, each normalized into an identifier, all initially unknown.
pub open spec fn inner_text_refs(lines: Seq<Seq<char>>) -> Seq<(Seq<char>, bool)> {
    Seq::new((lines.len() / 2) as nat, |k: int| (name_to_id_spec(lines[2 * k + 1]), false))
}

/// The views of a line list.
pub open spec fn line_views(lines: Seq<String>) -> Seq<Seq<char>> {
    lines.map_values(|x: String| x@)
}

/// Turn scraped relation text into references: lines alternate labels and
/// document names; every name becomes an unknown reference.
fn from_inner_text(lines: &Vec<String>) -> (r: Vec<CacheReference<DocIdentifier>>)
    ensures
        ref_views(r@) == inner_text_refs(line_views(lines@)),
{
    let n = lines.len();
    let half = n / 2;
    let mut out: Vec<CacheReference<DocIdentifier>> = Vec::new();
    let mut k: usize = 0;
    while k < half
        invariant
            n == lines@.len(),
            half == n / 2,
            k <= half,
            out@.len() == k,
            forall|j: int| 0 <= j < k
                ==> (#[trigger] out@[j])@
                    == (name_to_id_spec(lines@[2 * j + 1]@), false),
        decreases half - k,
    {
        let id = name_to_id(lines[2 * k + 1].as_str());
        out.push(CacheReference::Unknown(id));
        k = k + 1;
    }
    proof {
        assert(out@.len() == line_views(lines@).len() / 2);
        assert forall|j: int| 0 <= j < out@.len()
            implies ref_views(out@)[j] == inner_text_refs(line_views(lines@))[j] by {
            assert(line_views(lines@)[2 * j + 1] == lines@[2 * j + 1]@);
        }
        assert(ref_views(out@) =~= inner_text_refs(line_views(lines@)));
    }
    out
}

/// The metadata type labels this module understands from scraped pages.
pub open spec fn known_meta_type(t: Seq<char>) -> bool {
    ||| t == "updated_by"@
    ||| t == "updates"@
    ||| t == "obsoletes"@
    ||| t == "obsoleted_by"@
    ||| t == "was"@
    ||| t == "replaces"@
    ||| t == "replaced_by"@
    ||| t == "also_known_as"@
}

/// What [`Meta::from_html`] builds for a known type label and line list.
pub open spec fn from_html_spec(t: Seq<char>, lines: Seq<Seq<char>>) -> MetaView {
    if t == "updated_by"@ {
        MetaView::UpdatedBy(inner_text_refs(lines))
    } else if t == "updates"@ {
        MetaView::Updates(inner_text_refs(lines))
    } else if t == "obsoletes"@ {
        MetaView::Obsoletes(inner_text_refs(lines))
    } else if t == "obsoleted_by"@ {
        MetaView::ObsoletedBy(inner_text_refs(lines))
    } else if t == "was"@ {
        MetaView::Was(name_to_id_spec(trim_of(lines[1])))
    } else if t == "replaces"@ {
        MetaView::Replaces((name_to_id_spec(trim_of(lines[0])), false))
    } else if t == "replaced_by"@ {
        MetaView::ReplacedBy((name_to_id_spec(trim_of(lines[0])), false))
    } else {
        MetaView::AlsoKnownAs(name_to_id_spec(trim_of(lines[1])))
    }
}

impl Meta {
    /// Build one piece of metadata from a scraped type label and the text
    /// lines under it.  Unrecognized labels are reported, not fatal.
    pub fn from_html(tyype: &str, inner_text: &Vec<String>) -> (r: Result<Meta, DocError>)
        requires
            (tyype@ == "was"@ || tyype@ == "also_known_as"@) ==> inner_text@.len() >= 2,
            (tyype@ == "replaces"@ || tyype@ == "replaced_by"@) ==> inner_text@.len() >= 1,
        ensures
            r is Ok <==> known_meta_type(tyype@),
            r matches Ok(m) ==> m@ == from_html_spec(tyype@, line_views(inner_text@)),
            r matches Err(e) ==> e is UnknownMeta,
    {
        if str_eq_str(tyype, "updated_by") {
            Ok(Meta::UpdatedBy(from_inner_text(inner_text)))
        } else if str_eq_str(tyype, "updates") {
            Ok(Meta::Updates(from_inner_text(inner_text)))
        } else if str_eq_str(tyype, "obsoletes") {
            Ok(Meta::Obsoletes(from_inner_text(inner_text)))
        } else if str_eq_str(tyype, "obsoleted_by") {
            Ok(Meta::ObsoletedBy(from_inner_text(inner_text)))
        } else if str_eq_str(tyype, "was") {
            let t = trimmed(inner_text[1].as_str());
            Ok(Meta::Was(name_to_id(t)))
        } else if str_eq_str(tyype, "replaces") {
            let t = trimmed(inner_text[0].as_str());
            Ok(Meta::Replaces(CacheReference::Unknown(name_to_id(t))))
        } else if str_eq_str(tyype, "replaced_by") {
            let t = trimmed(inner_text[0].as_str());
            Ok(Meta::ReplacedBy(CacheReference::Unknown(name_to_id(t))))
        } else if str_eq_str(tyype, "also_known_as") {
            let t = trimmed(inner_text[1].as_str());
            Ok(Meta::AlsoKnownAs(name_to_id(t)))
        } else {
            let mut msg = String::from_str("unknown meta type ");
            msg.append(tyype);
            Err(DocError::UnknownMeta(msg))
        }
    }
}

/// The references an XML attribute value denotes: the value is folded to
/// ASCII lowercase, split at commas, and every piece names an RFC.
pub open spec fn from_xml_values_spec(v: Seq<char>) -> Seq<(Seq<char>, bool)> {
    split_commas(ascii_lower(v)).map_values(|p: Seq<char>| ("rfc"@ + p, false))
}

/// Turn an XML attribute value into references.
fn from_xml_values(value: &str) -> (r: Vec<CacheReference<DocIdentifier>>)
    ensures
        ref_views(r@) == from_xml_values_spec(value@),
        r@.len() >= 1,
{
    let lowered = ascii_lowercase_str(value);
    let pieces = split_commas_str(lowered.as_str());
    let mut out: Vec<CacheReference<DocIdentifier>> = Vec::new();
    let n = pieces.len();
    let mut i: usize = 0;
    while i < n
        invariant
            n == pieces@.len(),
            i <= n,
            out@.len() == i,
            forall|j: int| 0 <= j < i
                ==> (#[trigger] out@[j])@ == ("rfc"@ + pieces@[j]@, false),
        decreases n - i,
    {
        let id = concat_str("rfc", pieces[i].as_str());
        out.push(CacheReference::Unknown(id));
        i = i + 1;
    }
    proof {
        assert(pieces@.map_values(|p: String| p@) == split_commas(ascii_lower(value@)));
        assert forall|j: int| 0 <= j < n
            implies pieces@[j]@ == split_commas(ascii_lower(value@))[j] by {
            assert(pieces@.map_values(|p: String| p@)[j] == pieces@[j]@);
        }
        assert(ref_views(out@) =~= from_xml_values_spec(value@));
    }
    out
}

impl Meta {
    /// Build one piece of metadata from an XML attribute of the document
    /// source.  Unrecognized attribute keys are reported, not fatal.
    pub fn from_xml(key: &str, value: &str) -> (r: Result<Meta, DocError>)
        ensures
            r is Ok <==> (key@ == "updates"@ || key@ == "obsoletes"@
                || key@ == "replaces"@),
            r matches Ok(m) ==> m@ == (if key@ == "updates"@ {
                MetaView::Updates(from_xml_values_spec(value@))
            } else if key@ == "obsoletes"@ {
                MetaView::Obsoletes(from_xml_values_spec(value@))
            } else {
                MetaView::Replaces(from_xml_values_spec(value@)[0])
            }),
            r matches Err(e) ==> e is UnknownMeta,
    {
        if str_eq_str(key, "updates") {
            Ok(Meta::Updates(from_xml_values(value)))
        } else if str_eq_str(key, "obsoletes") {
            Ok(Meta::Obsoletes(from_xml_values(value)))
        } else if str_eq_str(key, "replaces") {
            let mut refs = from_xml_values(value);
            let first = refs.remove(0);
            proof {
                assert(first@ == from_xml_values_spec(value@)[0]);
            }
            Ok(Meta::Replaces(first))
        } else {
            let mut msg = String::from_str("unknown meta attribute ");
            msg.append(key);
            Err(DocError::UnknownMeta(msg))
        }
    }
}

/// The abstract content of a [`Summary`].
pub struct SummaryView {
    pub id: Seq<char>,
    pub revision: Seq<char>,
    pub is_rfc: bool,
    pub url: SourceUrlView,
    pub title: Seq<char>,
}

/// What a registry search knows about a document before its page is read.
#[derive(Debug, Clone, PartialEq, Eq)]
pub struct Summary {
    pub id: String,
    pub revision: String,
    pub is_rfc: bool,
    pub url: SourceUrl,
    pub title: String,
}

impl View for Summary {
    type V = SummaryView;

    open spec fn view(&self) -> SummaryView {
        SummaryView {
            id: self.id@,
            revision: self.revision@,
            is_rfc: self.is_rfc,
            url: self.url@,
            title: self.title@,
        }
    }
}

/// The identifier a search record denotes: an RFC number names `rfc{num}`;
/// anything else is `{name}-{revision}`.
pub open spec fn summary_id_spec(
    name: Seq<char>,
    revision: Seq<char>,
    rfc_number: Option<Seq<char>>,
) -> Seq<char> {
    match rfc_number {
        Option::Some(n) => "rfc"@ + n,
        Option::None => name + "-"@ + revision,
    }
}

impl Summary {
    /// Assemble a search-result summary from its fields; fails exactly when
    /// the registry page URL derived from the identifier is not well-formed.
    pub fn from_record(
        name: &str,
        revision: &str,
        title: &str,
        rfc_number: Option<&str>,
    ) -> (r: Result<Summary, DocError>)
        ensures
            ({
                let id = summary_id_spec(name@, revision@, match rfc_number {
                    Option::Some(n) => Option::Some(n@),
                    Option::None => Option::None,
                });
                &&& (r is Ok <==> crate::source::url_accepts(
                    crate::source::html_url_of(id)))
                &&& (r matches Ok(s) ==> s@.id == id
                    && s@.revision == revision@
                    && s@.title == title@
                    && s@.is_rfc == (rfc_number is Some)
                    && s@.url.id == id
                    && s@.url.html == crate::source::html_url_of(id))
                &&& (r matches Err(e) ==> e is Url)
            }),
    {
        let id = match rfc_number {
            Some(n) => concat_str("rfc", n),
            None => {
                let mut s = concat_str(name, "-");
                s.append(revision);
                s
            }
        };
        match SourceUrl::new(&id) {
            Ok(url) => Ok(Summary {
                id,
                revision: String::from_str(revision),
                is_rfc: rfc_number.is_some(),
                url,
                title: String::from_str(title),
            }),
            Err(e) => Err(e),
        }
    }
}

/// The abstract content of an [`IetfDoc`].
pub struct DocView {
    pub summary: SummaryView,
    pub meta: Seq<MetaView>,
}

/// A document: its summary and its relation metadata.
#[derive(Debug, Clone, PartialEq, Eq)]
pub struct IetfDoc {
    pub summary: Summary,
    pub meta: Vec<Meta>,
}

impl View for IetfDoc {
    type V = DocView;

    open spec fn view(&self) -> DocView {
        DocView { summary: self.summary@, meta: meta_views(self.meta@) }
    }
}

impl IetfDoc {
    /// The registry page URL for an identifier.
    pub fn id_to_url(id: &DocIdentifier) -> (r: Result<SourceUrl, DocError>)
        ensures
            r matches Ok(u) ==> u@.id == id@
                && u@.html == crate::source::html_url_of(id@),
            r is Ok <==> crate::source::url_accepts(crate::source::html_url_of(id@)),
            r matches Err(e) ==> e is Url,
    {
        SourceUrl::new(id)
    }

    /// How many related documents the metadata names in total.
    pub fn meta_count(&self) -> (n: usize)
        requires
            metas_count(self@.meta) <= usize::MAX as int,
        ensures
            n as int == metas_count(self@.meta),
    {
        let mut total: usize = 0;
        let k = self.meta.len();
        let mut i: usize = 0;
        proof {
            assert(self@.meta =~= meta_views(self.meta@));
            assert(metas_count(self@.meta.subrange(0, 0)) == 0) by {
                assert(self@.meta.subrange(0, 0) =~= Seq::<MetaView>::empty());
            }
        }
        while i < k
            invariant
                k == self.meta@.len(),
                i <= k,
                metas_count(meta_views(self.meta@)) <= usize::MAX as int,
                total as int == metas_count(meta_views(self.meta@).subrange(0, i as int)),
            decreases k - i,
        {
            proof {
                lemma_metas_prefix(meta_views(self.meta@), i as int);
                lemma_metas_count_prefix_le(meta_views(self.meta@), i + 1);
                assert(meta_views(self.meta@)[i as int] == self.meta@[i as int]@);
                lemma_meta_count_nonneg(meta_views(self.meta@), 0);
            }
            let c = self.meta[i].count();
            total = total + c;
            i = i + 1;
        }
        proof {
            assert(meta_views(self.meta@).subrange(0, k as int) =~= meta_views(self.meta@));
        }
        total
    }

    /// How many references are still tagged unknown.
    pub fn missing(&self) -> (n: usize)
        requires
            metas_refs(self@.meta).len() <= REFS_BOUND as int,
        ensures
            n as int == unknown_count(metas_refs(self@.meta)),
    {
        count_unknown_refs(&self.meta)
    }
}

/// Counts of one metadata piece never go negative; a prefix count is at most
/// the whole.
proof fn lemma_meta_count_nonneg(ms: Seq<MetaView>, i: int)
    requires
        0 <= i <= ms.len(),
    ensures
        metas_count(ms.subrange(0, i)) >= 0,
    decreases i,
{
    if i > 0 {
        lemma_metas_prefix(ms, i - 1);
        lemma_meta_count_nonneg(ms, i - 1);
    } else {
        assert(ms.subrange(0, 0) =~= Seq::<MetaView>::empty());
    }
}

/// A prefix of the metadata never counts more relations than the whole.
proof fn lemma_metas_count_prefix_le(ms: Seq<MetaView>, i: int)
    requires
        0 <= i <= ms.len(),
    ensures
        metas_count(ms.subrange(0, i)) <= metas_count(ms),
    decreases ms.len() - i,
{
    if i == ms.len() {
        assert(ms.subrange(0, i) =~= ms);
    } else {
        lemma_metas_prefix(ms, i);
        lemma_metas_count_prefix_le(ms, i + 1);
    }
}

/// Count the unknown references across a metadata list.
fn count_unknown_refs(meta: &Vec<Meta>) -> (n: usize)
    requires
        metas_refs(meta_views(meta@)).len() <= REFS_BOUND as int,
    ensures
        n as int == unknown_count(metas_refs(meta_views(meta@))),
{
    let k = meta.len();
    let mut total: usize = 0;
    let mut i: usize = 0;
    proof {
        assert(meta_views(meta@).subrange(0, 0) =~= Seq::<MetaView>::empty());
    }
    while i < k
        invariant
            k == meta@.len(),
            i <= k,
            metas_refs(meta_views(meta@)).len() <= REFS_BOUND as int,
            total as int == unknown_count(metas_refs(meta_views(meta@).subrange(0, i as int))),
            total as int <= metas_refs(meta_views(meta@).subrange(0, i as int)).len(),
        decreases k - i,
    {
        let ghost ms = meta_views(meta@);
        proof {
            lemma_metas_prefix(ms, i as int);
            lemma_metas_refs_prefix_le(ms, i + 1);
            lemma_unknown_count_concat(
                metas_refs(ms.subrange(0, i as int)), meta_refs(ms[i as int]));
            crate::resolve::lemma_unknown_count_bounds(meta_refs(ms[i as int]));
            crate::resolve::lemma_unknown_count_bounds(
                metas_refs(ms.subrange(0, i as int)));
            assert(ms[i as int] == meta@[i as int]@);
        }
        let c = meta_unknown_count(&meta[i]);
        total = total + c;
        i = i + 1;
    }
    proof {
        assert(meta_views(meta@).subrange(0, k as int) =~= meta_views(meta@));
    }
    total
}

/// Count the unknown references in one piece of metadata.
fn meta_unknown_count(m: &Meta) -> (n: usize)
    ensures
        n as int == unknown_count(meta_refs(m@)),
        n as int <= meta_refs(m@).len(),
{
    match m {
        Meta::Updates(l) => list_unknown_count(l),
        Meta::UpdatedBy(l) => list_unknown_count(l),
        Meta::Obsoletes(l) => list_unknown_count(l),
        Meta::ObsoletedBy(l) => list_unknown_count(l),
        Meta::AlsoKnownAs(_) => 0,
        Meta::Replaces(r) => {
            proof {
                lemma_singleton_unknown(r@);
            }
            if r.is_cached() { 0 } else { 1 }
        }
        Meta::ReplacedBy(r) => {
            proof {
                lemma_singleton_unknown(r@);
            }
            if r.is_cached() { 0 } else { 1 }
        }
        Meta::Was(_) => 0,
    }
}

/// The unknown count of a single reference is its tag, inverted.
proof fn lemma_singleton_unknown(r: (Seq<char>, bool))
    ensures
        unknown_count(seq![r]) == if r.1 { 0int } else { 1int },
{
    assert(unknown_count(Seq::<(Seq<char>, bool)>::empty()) == 0);
    assert(seq![r].drop_last() =~= Seq::<(Seq<char>, bool)>::empty());
    assert(seq![r].last() == r);
}

/// The abstract content of a [`StatefulDoc`].
pub struct StatefulDocView {
    pub content: DocView,
    pub is_read: bool,
    pub is_selected: bool,
    pub missing_dep_count: usize,
    pub offline: Option<Seq<char>>,
    pub to_resolve: bool,
}

/// A cached document together with its presentation and resolution state.
/// `missing_dep_count` is the derived counter the resolution deltas keep in
/// sync: it equals the document's unknown-reference count whenever the
/// deltas reported for this entry have been applied to it.
#[derive(Debug, Clone, PartialEq, Eq)]
pub struct StatefulDoc {
    pub content: IetfDoc,
    pub is_read: bool,
    pub is_selected: bool,
    pub missing_dep_count: usize,
    pub offline: Option<String>,
    pub to_resolve: bool,
}

impl View for StatefulDoc {
    type V = StatefulDocView;

    open spec fn view(&self) -> StatefulDocView {
        StatefulDocView {
            content: self.content@,
            is_read: self.is_read,
            is_selected: self.is_selected,
            missing_dep_count: self.missing_dep_count,
            offline: match self.offline {
                Option::Some(s) => Option::Some(s@),
                Option::None => Option::None,
            },
            to_resolve: self.to_resolve,
        }
    }
}

impl StatefulDoc {
    /// Wrap a freshly obtained document: unread, unselected, not queued for
    /// resolution, not downloaded, with its missing-reference counter seeded.
    pub fn new(doc: IetfDoc) -> (r: StatefulDoc)
        requires
            metas_refs(doc@.meta).len() <= REFS_BOUND as int,
        ensures
            r@.content == doc@,
            !r@.is_read,
            !r@.is_selected,
            !r@.to_resolve,
            r@.offline is None,
            r@.missing_dep_count as int == unknown_count(metas_refs(doc@.meta)),
    {
        let count = count_unknown_refs(&doc.meta);
        StatefulDoc {
            content: doc,
            is_read: false,
            is_selected: false,
            missing_dep_count: count,
            offline: None,
            to_resolve: false,
        }
    }
}

/// Apply one reported resolution delta to a document's missing-reference
/// counter: `new_deps` references became known, so the counter drops by that
/// much (a negative delta raises it).
pub fn update_missing_dep_count(doc: &mut StatefulDoc, new_deps: isize)
    requires
        -(REFS_BOUND as int) <= new_deps as int <= REFS_BOUND as int,
        0 <= old(doc).missing_dep_count as int - new_deps as int <= usize::MAX as int,
    ensures
        final(doc).missing_dep_count as int
            == old(doc).missing_dep_count as int - new_deps as int,
        final(doc).content == old(doc).content,
        final(doc).is_read == old(doc).is_read,
        final(doc).is_selected == old(doc).is_selected,
        final(doc).offline == old(doc).offline,
        final(doc).to_resolve == old(doc).to_resolve,
{
    if new_deps >= 0 {
        doc.missing_dep_count = doc.missing_dep_count - (new_deps as usize);
    } else {
        doc.missing_dep_count = doc.missing_dep_count + ((-new_deps) as usize);
    }
}

/// The unknown key set of a single reference.
proof fn lemma_singleton_unknown_set(r: (Seq<char>, bool))
    ensures
        unknown_key_set(seq![r]) == if r.1 {
            Set::<Seq<char>>::empty()
        } else {
            Set::<Seq<char>>::empty().insert(r.0)
        },
{
    assert forall|kv: Seq<char>|
        has_unknown_key(seq![r], kv) == (!r.1 && kv == r.0) by {
        if has_unknown_key(seq![r], kv) {
            let i = choose|i: int| 0 <= i < seq![r].len() && seq![r][i] == (kv, false);
            assert(i == 0);
        }
        if !r.1 && kv == r.0 {
            assert(seq![r][0] == (kv, false));
        }
    }
    if r.1 {
        assert(unknown_key_set(seq![r]) =~= Set::<Seq<char>>::empty());
    } else {
        assert(unknown_key_set(seq![r]) =~= Set::<Seq<char>>::empty().insert(r.0));
    }
}

/// One step of a reference scan: the prefix one longer appends one element.
proof fn lemma_refs_prefix(s: Seq<(Seq<char>, bool)>, i: int)
    requires
        0 <= i < s.len(),
    ensures
        s.subrange(0, i + 1) == s.subrange(0, i) + seq![s[i]],
        unknown_count(s.subrange(0, i + 1)) == unknown_count(s.subrange(0, i))
            + if s[i].1 { 0int } else { 1int },
{
    assert(s.subrange(0, i + 1) =~= s.subrange(0, i) + seq![s[i]]);
    assert(s.subrange(0, i + 1).drop_last() =~= s.subrange(0, i));
    assert(s.subrange(0, i + 1).last() == s[i]);
}

/// Collect the unknown reference keys of a reference list into a key set.
fn list_unknowns_into(l: &Vec<CacheReference<DocIdentifier>>, acc: &mut KeySet<DocIdentifier>)
    ensures
        final(acc)@ == old(acc)@.union(unknown_key_set(ref_views(l@))),
{
    let k = l.len();
    let mut i: usize = 0;
    proof {
        assert(ref_views(l@).subrange(0, 0) =~= Seq::<(Seq<char>, bool)>::empty());
        assert(unknown_key_set(Seq::<(Seq<char>, bool)>::empty())
            =~= Set::<Seq<char>>::empty());
        assert(acc@ =~= old(acc)@.union(
            unknown_key_set(ref_views(l@).subrange(0, 0))));
    }
    while i < k
        invariant
            k == l@.len(),
            i <= k,
            acc@ == old(acc)@.union(unknown_key_set(ref_views(l@).subrange(0, i as int))),
        decreases k - i,
    {
        proof {
            lemma_refs_prefix(ref_views(l@), i as int);
            lemma_unknown_set_concat(
                ref_views(l@).subrange(0, i as int), seq![ref_views(l@)[i as int]]);
            lemma_singleton_unknown_set(ref_views(l@)[i as int]);
            assert(ref_views(l@)[i as int] == l@[i as int]@);
        }
        if !l[i].is_cached() {
            let id = l[i].id().dup();
            acc.insert(id);
            proof {
                assert(acc@ =~= old(acc)@.union(
                    unknown_key_set(ref_views(l@).subrange(0, i + 1))));
            }
        } else {
            proof {
                assert(acc@ =~= old(acc)@.union(
                    unknown_key_set(ref_views(l@).subrange(0, i + 1))));
            }
        }
        i = i + 1;
    }
    proof {
        assert(ref_views(l@).subrange(0, k as int) =~= ref_views(l@));
    }
}

/// Collect the unknown reference keys of one piece of metadata.
fn meta_unknowns_into(m: &Meta, acc: &mut KeySet<DocIdentifier>)
    ensures
        final(acc)@ == old(acc)@.union(unknown_key_set(meta_refs(m@))),
{
    match m {
        Meta::Updates(l) => list_unknowns_into(l, acc),
        Meta::UpdatedBy(l) => list_unknowns_into(l, acc),
        Meta::Obsoletes(l) => list_unknowns_into(l, acc),
        Meta::ObsoletedBy(l) => list_unknowns_into(l, acc),
        Meta::AlsoKnownAs(_) => {
            proof {
                assert(unknown_key_set(meta_refs(m@)) =~= Set::<Seq<char>>::empty());
                assert(acc@ =~= acc@.union(unknown_key_set(meta_refs(m@))));
            }
        }
        Meta::Replaces(r) => {
            proof {
                lemma_singleton_unknown_set(r@);
            }
            if !r.is_cached() {
                let id = r.id().dup();
                acc.insert(id);
                proof {
                    assert(acc@ =~= old(acc)@.union(unknown_key_set(meta_refs(m@))));
                }
            } else {
                proof {
                    assert(acc@ =~= old(acc)@.union(unknown_key_set(meta_refs(m@))));
                }
            }
        }
        Meta::ReplacedBy(r) => {
            proof {
                lemma_singleton_unknown_set(r@);
            }
            if !r.is_cached() {
                let id = r.id().dup();
                acc.insert(id);
                proof {
                    assert(acc@ =~= old(acc)@.union(unknown_key_set(meta_refs(m@))));
                }
            } else {
                proof {
                    assert(acc@ =~= old(acc)@.union(unknown_key_set(meta_refs(m@))));
                }
            }
        }
        Meta::Was(_) => {
            proof {
                assert(unknown_key_set(meta_refs(m@)) =~= Set::<Seq<char>>::empty());
                assert(acc@ =~= acc@.union(unknown_key_set(meta_refs(m@))));
            }
        }
    }
}

/// Re-tag every reference of a list against `known`; count the flips.
fn update_ref_list(
    l: &mut Vec<CacheReference<DocIdentifier>>,
    known: &KeySet<DocIdentifier>,
) -> (r: (usize, usize))
    ensures
        same_ref_keys(ref_views(old(l)@), ref_views(final(l)@)),
        refs_agree(ref_views(final(l)@), known@),
        r.0 as int - r.1 as int == unknown_count(ref_views(old(l)@))
            - unknown_count(ref_views(final(l)@)),
        r.0 as int <= ref_views(old(l)@).len(),
        r.1 as int <= ref_views(old(l)@).len(),
        refs_agree(ref_views(old(l)@), known@)
            ==> ref_views(final(l)@) == ref_views(old(l)@)
                && r.0 == 0 && r.1 == 0,
{
    let k = l.len();
    let mut pos: usize = 0;
    let mut neg: usize = 0;
    let mut i: usize = 0;
    proof {
        assert(ref_views(l@).subrange(0, 0)
            =~= ref_views(old(l)@).subrange(0, 0));
        assert(unknown_count(ref_views(old(l)@).subrange(0, 0)) == 0) by {
            assert(ref_views(old(l)@).subrange(0, 0)
                =~= Seq::<(Seq<char>, bool)>::empty());
        }
    }
    while i < k
        invariant
            k == l@.len(),
            k == old(l)@.len(),
            i <= k,
            pos <= i,
            neg <= i,
            forall|j: int| i <= j < k ==> l@[j] == old(l)@[j],
            forall|j: int| 0 <= j < i
                ==> (#[trigger] ref_views(l@)[j]).0 == (ref_views(old(l)@)[j]).0
                    && (ref_views(l@)[j]).1 == known@.contains((ref_views(l@)[j]).0),
            pos as int - neg as int
                == unknown_count(ref_views(old(l)@).subrange(0, i as int))
                    - unknown_count(ref_views(l@).subrange(0, i as int)),
            (forall|j: int| 0 <= j < i
                ==> (#[trigger] ref_views(old(l)@)[j]).1
                    == known@.contains((ref_views(old(l)@)[j]).0))
                ==> l@ =~= old(l)@ && pos == 0 && neg == 0,
        decreases k - i,
    {
        proof {
            lemma_refs_prefix(ref_views(old(l)@), i as int);
            lemma_unknown_count_concat(
                ref_views(old(l)@).subrange(0, i as int),
                seq![ref_views(old(l)@)[i as int]]);
            assert(ref_views(l@)[i as int] == l@[i as int]@);
            assert(ref_views(old(l)@)[i as int] == old(l)@[i as int]@);
        }
        let ghost before = l@;
        let is_c = l[i].is_cached();
        let in_known = known.contains(l[i].id());
        if is_c != in_known {
            let nr = if in_known {
                CacheReference::Cached(l[i].id().dup())
            } else {
                CacheReference::Unknown(l[i].id().dup())
            };
            l[i] = nr;
            if in_known {
                pos = pos + 1;
            } else {
                neg = neg + 1;
            }
        }
        proof {
            lemma_refs_prefix(ref_views(l@), i as int);
            assert(ref_views(l@)[i as int] == l@[i as int]@);
            assert forall|j: int| 0 <= j < i
                implies ref_views(l@)[j] == ref_views(before)[j] by {
                assert(l@[j] == before[j]);
            }
            assert(ref_views(l@).subrange(0, i as int)
                =~= ref_views(before).subrange(0, i as int));
            assert((ref_views(l@)[i as int]).0 == (ref_views(old(l)@)[i as int]).0);
            assert((ref_views(l@)[i as int]).1
                == known@.contains((ref_views(l@)[i as int]).0));
            assert forall|j: int| 0 <= j < i + 1
                implies (#[trigger] ref_views(l@)[j]).0 == (ref_views(old(l)@)[j]).0
                    && (ref_views(l@)[j]).1
                        == known@.contains((ref_views(l@)[j]).0) by {
                if j < i {
                    assert(ref_views(l@)[j] == ref_views(before)[j]);
                    assert((ref_views(before)[j]).0 == (ref_views(old(l)@)[j]).0);
                    assert((ref_views(before)[j]).1
                        == known@.contains((ref_views(before)[j]).0));
                }
            }
        }
        i = i + 1;
    }
    proof {
        assert(ref_views(l@).subrange(0, k as int) =~= ref_views(l@));
        assert(ref_views(old(l)@).subrange(0, k as int) =~= ref_views(old(l)@));
        if refs_agree(ref_views(old(l)@), known@) {
            assert(l@ =~= old(l)@);
            assert(ref_views(l@) =~= ref_views(old(l)@));
        }
    }
    (pos, neg)
}

/// Re-tag a single reference against `known`.
fn update_single_ref(
    r: &mut CacheReference<DocIdentifier>,
    known: &KeySet<DocIdentifier>,
) -> (d: (usize, usize))
    ensures
        (final(r)@).0 == (old(r)@).0,
        (final(r)@).1 == known@.contains((old(r)@).0),
        d.0 as int - d.1 as int
            == unknown_count(seq![old(r)@]) - unknown_count(seq![final(r)@]),
        d.0 <= 1,
        d.1 <= 1,
        (old(r)@).1 == known@.contains((old(r)@).0)
            ==> final(r)@ == old(r)@ && d.0 == 0 && d.1 == 0,
{
    proof {
        lemma_singleton_unknown(old(r)@);
    }
    let is_c = r.is_cached();
    let in_known = known.contains(r.id());
    if is_c != in_known {
        let nr = if in_known {
            CacheReference::Cached(r.id().dup())
        } else {
            CacheReference::Unknown(r.id().dup())
        };
        *r = nr;
        proof {
            lemma_singleton_unknown(r@);
        }
        if in_known {
            (1, 0)
        } else {
            (0, 1)
        }
    } else {
        proof {
            lemma_singleton_unknown(r@);
        }
        (0, 0)
    }
}

/// Re-tag every reference of one piece of metadata; count the flips.
fn update_meta(m: &mut Meta, known: &KeySet<DocIdentifier>) -> (r: (usize, usize))
    ensures
        same_ref_keys(meta_refs(old(m)@), meta_refs(final(m)@)),
        refs_agree(meta_refs(final(m)@), known@),
        clear_meta_tags(final(m)@) == clear_meta_tags(old(m)@),
        r.0 as int - r.1 as int == unknown_count(meta_refs(old(m)@))
            - unknown_count(meta_refs(final(m)@)),
        r.0 as int <= meta_refs(old(m)@).len(),
        r.1 as int <= meta_refs(old(m)@).len(),
        refs_agree(meta_refs(old(m)@), known@) ==> final(m)@ == old(m)@
            && r.0 == 0 && r.1 == 0,
{
    match m {
        Meta::Updates(l) => {
            let ghost l0 = l@;
            let d = update_ref_list(l, known);
            proof {
                lemma_cleared_lists(ref_views(l0), ref_views(l@));
            }
            d
        }
        Meta::UpdatedBy(l) => {
            let ghost l0 = l@;
            let d = update_ref_list(l, known);
            proof {
                lemma_cleared_lists(ref_views(l0), ref_views(l@));
            }
            d
        }
        Meta::Obsoletes(l) => {
            let ghost l0 = l@;
            let d = update_ref_list(l, known);
            proof {
                lemma_cleared_lists(ref_views(l0), ref_views(l@));
            }
            d
        }
        Meta::ObsoletedBy(l) => {
            let ghost l0 = l@;
            let d = update_ref_list(l, known);
            proof {
                lemma_cleared_lists(ref_views(l0), ref_views(l@));
            }
            d
        }
        Meta::AlsoKnownAs(_) => (0, 0),
        Meta::Replaces(r) => update_single_ref(r, known),
        Meta::ReplacedBy(r) => update_single_ref(r, known),
        Meta::Was(_) => (0, 0),
    }
}

/// Two reference sequences with the same keys clear to the same sequence.
proof fn lemma_cleared_lists(a: Seq<(Seq<char>, bool)>, b: Seq<(Seq<char>, bool)>)
    requires
        same_ref_keys(a, b),
    ensures
        a.map_values(|r: (Seq<char>, bool)| clear_ref(r))
            == b.map_values(|r: (Seq<char>, bool)| clear_ref(r)),
{
    assert(a.map_values(|r: (Seq<char>, bool)| clear_ref(r))
        =~= b.map_values(|r: (Seq<char>, bool)| clear_ref(r)));
}

impl RelationalEntry<DocIdentifier> for StatefulDoc {
    open spec fn refs_of(v: StatefulDocView) -> Seq<(Seq<char>, bool)> {
        metas_refs(v.content.meta)
    }

    open spec fn erase_tags(v: StatefulDocView) -> StatefulDocView {
        StatefulDocView {
            content: DocView {
                summary: v.content.summary,
                meta: clear_metas_tags(v.content.meta),
            },
            is_read: v.is_read,
            is_selected: v.is_selected,
            missing_dep_count: v.missing_dep_count,
            offline: v.offline,
            to_resolve: v.to_resolve,
        }
    }

    fn get_unknown_relations(&self) -> (r: KeySet<DocIdentifier>) {
        let mut acc = KeySet::<DocIdentifier>::new();
        let k = self.content.meta.len();
        let mut i: usize = 0;
        let ghost ms = meta_views(self.content.meta@);
        proof {
            assert(ms.subrange(0, 0) =~= Seq::<MetaView>::empty());
            assert(unknown_key_set(metas_refs(ms.subrange(0, 0)))
                =~= Set::<Seq<char>>::empty());
            assert(acc@ =~= unknown_key_set(metas_refs(ms.subrange(0, 0))));
        }
        while i < k
            invariant
                k == self.content.meta@.len(),
                i <= k,
                ms == meta_views(self.content.meta@),
                acc@ == unknown_key_set(metas_refs(ms.subrange(0, i as int))),
            decreases k - i,
        {
            proof {
                lemma_metas_prefix(ms, i as int);
                lemma_unknown_set_concat(
                    metas_refs(ms.subrange(0, i as int)), meta_refs(ms[i as int]));
                assert(ms[i as int] == self.content.meta@[i as int]@);
            }
            meta_unknowns_into(&self.content.meta[i], &mut acc);
            proof {
                assert(acc@ =~= unknown_key_set(metas_refs(ms.subrange(0, i + 1))));
            }
            i = i + 1;
        }
        proof {
            assert(ms.subrange(0, k as int) =~= ms);
        }
        acc
    }

    fn update_unknown_references(&mut self, known: &KeySet<DocIdentifier>) -> (delta: isize) {
        let ghost ms0 = meta_views(old(self).content.meta@);
        let k = self.content.meta.len();
        let mut pos: usize = 0;
        let mut neg: usize = 0;
        let mut i: usize = 0;
        proof {
            assert(ms0.subrange(0, 0) =~= Seq::<MetaView>::empty());
            assert(meta_views(self.content.meta@).subrange(0, 0) =~= ms0.subrange(0, 0));
            assert(metas_refs(ms0.subrange(0, 0)) =~= Seq::<(Seq<char>, bool)>::empty());
        }
        while i < k
            invariant
                k == self.content.meta@.len(),
                k == ms0.len(),
                i <= k,
                metas_refs(ms0).len() <= REFS_BOUND as int,
                ms0 == meta_views(old(self).content.meta@),
                self.content.summary == old(self).content.summary,
                self.is_read == old(self).is_read,
                self.is_selected == old(self).is_selected,
                self.missing_dep_count == old(self).missing_dep_count,
                self.offline == old(self).offline,
                self.to_resolve == old(self).to_resolve,
                forall|j: int| i <= j < k
                    ==> #[trigger] self.content.meta@[j] == old(self).content.meta@[j],
                same_ref_keys(
                    metas_refs(ms0.subrange(0, i as int)),
                    metas_refs(meta_views(self.content.meta@).subrange(0, i as int))),
                refs_agree(
                    metas_refs(meta_views(self.content.meta@).subrange(0, i as int)),
                    known@),
                pos as int - neg as int
                    == unknown_count(metas_refs(ms0.subrange(0, i as int)))
                        - unknown_count(metas_refs(
                            meta_views(self.content.meta@).subrange(0, i as int))),
                pos as int <= metas_refs(ms0.subrange(0, i as int)).len(),
                neg as int <= metas_refs(ms0.subrange(0, i as int)).len(),
                forall|j: int| 0 <= j < k
                    ==> clear_meta_tags(#[trigger] meta_views(self.content.meta@)[j])
                        == clear_meta_tags(ms0[j]),
                refs_agree(metas_refs(ms0), known@)
                    ==> meta_views(self.content.meta@).subrange(0, i as int)
                            =~= ms0.subrange(0, i as int)
                        && pos == 0 && neg == 0,
            decreases k - i,
        {
            let ghost cur = meta_views(self.content.meta@);
            proof {
                lemma_metas_prefix(ms0, i as int);
                lemma_metas_refs_prefix_le(ms0, i + 1);
                lemma_unknown_count_concat(
                    metas_refs(ms0.subrange(0, i as int)), meta_refs(ms0[i as int]));
                crate::resolve::lemma_unknown_count_bounds(
                    metas_refs(ms0.subrange(0, i as int)));
                crate::resolve::lemma_unknown_count_bounds(meta_refs(ms0[i as int]));
                assert(ms0[i as int] == old(self).content.meta@[i as int]@);
                assert(cur.subrange(0, i as int)
                    =~= meta_views(self.content.meta@).subrange(0, i as int));
            }
            let (p, n) = update_meta(&mut self.content.meta[i], known);
            pos = pos + p;
            neg = neg + n;
            proof {
                let curn = meta_views(self.content.meta@);
                assert forall|j: int| 0 <= j < k && j != i
                    implies curn[j] == cur[j] by {
                }
                assert(curn.subrange(0, i as int) =~= cur.subrange(0, i as int));
                assert(curn[i as int] == self.content.meta@[i as int]@);
                lemma_metas_prefix(curn, i as int);
                lemma_unknown_count_concat(
                    metas_refs(curn.subrange(0, i as int)), meta_refs(curn[i as int]));
                lemma_refs_concat(
                    metas_refs(ms0.subrange(0, i as int)),
                    meta_refs(ms0[i as int]),
                    metas_refs(curn.subrange(0, i as int)),
                    meta_refs(curn[i as int]),
                    known@);
                if refs_agree(metas_refs(ms0), known@) {
                    // the whole document already agreed, so this piece did too
                    assert(refs_agree(meta_refs(ms0[i as int]), known@)) by {
                        lemma_metas_refs_prefix_le(ms0, i + 1);
                        assert forall|a: int| 0 <= a < meta_refs(ms0[i as int]).len()
                            implies (#[trigger] meta_refs(ms0[i as int])[a]).1
                                == known@.contains(meta_refs(ms0[i as int])[a].0) by {
                            let off = metas_refs(ms0.subrange(0, i as int)).len();
                            assert(metas_refs(ms0.subrange(0, i + 1))[off + a]
                                == meta_refs(ms0[i as int])[a]);
                            lemma_refs_prefix_of_whole(ms0, i + 1, off + a);
                        }
                    }
                    assert(curn.subrange(0, i + 1) =~= ms0.subrange(0, i + 1));
                }
            }
            i = i + 1;
        }
        proof {
            let ghost cur = meta_views(self.content.meta@);
            assert(cur.subrange(0, k as int) =~= cur);
            assert(ms0.subrange(0, k as int) =~= ms0);
            crate::resolve::lemma_unknown_count_bounds(metas_refs(ms0));
            crate::resolve::lemma_unknown_count_bounds(metas_refs(cur));
            if refs_agree(metas_refs(ms0), known@) {
                assert(cur =~= ms0);
                assert(self@ == old(self)@);
            }
            // nothing besides the tags changed
            assert(clear_metas_tags(cur) =~= clear_metas_tags(ms0));
            assert(StatefulDoc::erase_tags(self@) == StatefulDoc::erase_tags(old(self)@));
        }
        let delta = (pos as isize) - (neg as isize);
        delta
    }

    fn get_unknown_relations_count(&self) -> (n: usize) {
        count_unknown_refs(&self.content.meta)
    }
}

/// Every entry's missing-reference counter equals its current
/// unknown-reference count.
pub open spec fn counters_consistent(m: Map<Seq<char>, StatefulDocView>) -> bool {
    forall|kv: Seq<char>| #[trigger] m.dom().contains(kv)
        ==> m[kv].missing_dep_count as int
            == unknown_count(metas_refs(m[kv].content.meta))
}

/// The part of a document view that resolution bookkeeping never touches:
/// tags cleared and the counter zeroed.
pub open spec fn erase_resolution_state(v: StatefulDocView) -> StatefulDocView {
    StatefulDocView {
        content: DocView {
            summary: v.content.summary,
            meta: clear_metas_tags(v.content.meta),
        },
        is_read: v.is_read,
        is_selected: v.is_selected,
        missing_dep_count: 0,
        offline: v.offline,
        to_resolve: v.to_resolve,
    }
}

/// Two document views that differ at most in the missing-reference counter.
pub open spec fn same_but_counter(a: StatefulDocView, b: StatefulDocView) -> bool {
    &&& a.content == b.content
    &&& a.is_read == b.is_read
    &&& a.is_selected == b.is_selected
    &&& a.offline == b.offline
    &&& a.to_resolve == b.to_resolve
}

impl Cache<DocIdentifier, StatefulDoc> {
    /// Run one rewrite pass against the current keys and bring every entry's
    /// missing-reference counter back in line: when the counters were in
    /// line before, by applying each reported delta; otherwise
    /// (`recompute`) by recounting every entry.  Afterwards every tag is
    /// truthful and every counter equals its entry's unknown count.
    pub fn refresh_counters(&mut self, recompute: bool)
        -> (changed: Vec<(DocIdentifier, isize)>)
        requires
            old(self).wf(),
            entries_bounded::<DocIdentifier, StatefulDoc>(old(self)@),
            !recompute ==> counters_consistent(old(self)@),
        ensures
            final(self).wf(),
            entries_bounded::<DocIdentifier, StatefulDoc>(final(self)@),
            final(self)@.dom() == old(self)@.dom(),
            tags_consistent::<DocIdentifier, StatefulDoc>(final(self)@),
            counters_consistent(final(self)@),
            forall|kv: Seq<char>| #[trigger] old(self)@.dom().contains(kv)
                ==> unknown_count(metas_refs(final(self)@[kv].content.meta))
                    == unknown_count(metas_refs(old(self)@[kv].content.meta))
                        - crate::resolve::delta_sum(changes_view(changed@), kv),
            forall|c: int| 0 <= c < changed@.len()
                ==> final(self)@.dom().contains((#[trigger] changed@[c]).0@)
                    && changed@[c].1 != 0,
            forall|kv: Seq<char>| #[trigger] old(self)@.dom().contains(kv)
                ==> erase_resolution_state(final(self)@[kv])
                    == erase_resolution_state(old(self)@[kv]),
    {
        let ghost pre0 = self@;
        let none = KeySet::<DocIdentifier>::new();
        let changed = self.update_relations(&none);
        let ghost mid = self@;
        let ghost ks = self.key_seq();
        let ghost chv = changes_view(changed@);
        proof {
            <String as CacheIdentifier>::lemma_key_order();
            self.lemma_view_props();
            assert(pre0.dom().union(none@) =~= pre0.dom());
            assert forall|kv: Seq<char>| #[trigger] mid.dom().contains(kv)
                implies refs_agree(metas_refs(mid[kv].content.meta), mid.dom())
                    && mid[kv].missing_dep_count == pre0[kv].missing_dep_count
                    && unknown_count(metas_refs(mid[kv].content.meta))
                        == unknown_count(metas_refs(pre0[kv].content.meta))
                            - crate::resolve::delta_sum(chv, kv) by {
                assert(pre0.dom().contains(kv));
                assert(refs_agree(
                    StatefulDoc::refs_of(mid[kv]), pre0.dom().union(none@)));
                assert(StatefulDoc::erase_tags(mid[kv])
                    == StatefulDoc::erase_tags(pre0[kv]));
            }
            assert forall|c1: int, c2: int| 0 <= c1 < c2 < chv.len()
                implies (#[trigger] chv[c1]).0 != (#[trigger] chv[c2]).0 by {
                assert(chv[c1].0 == changed@[c1].0@);
                assert(chv[c2].0 == changed@[c2].0@);
                assert(String::key_lt(changed@[c1].0@, changed@[c2].0@));
                if chv[c1].0 == chv[c2].0 {
                    assert(!String::key_lt(changed@[c2].0@, changed@[c1].0@));
                    assert(false);
                }
            }
        }
        if recompute {
            let n = self.len();
            let mut i: usize = 0;
            while i < n
                invariant
                    self.wf(),
                    self.key_seq() == ks,
                    self@.dom() == mid.dom(),
                    entries_bounded::<DocIdentifier, StatefulDoc>(mid),
                    n == ks.len(),
                    i <= n,
                    forall|j: int| 0 <= j < ks.len()
                        ==> mid.dom().contains(#[trigger] ks[j]),
                    forall|j: int| i <= j < n
                        ==> #[trigger] self@[ks[j]] == mid[ks[j]],
                    forall|j: int| 0 <= j < i
                        ==> same_but_counter(#[trigger] self@[ks[j]], mid[ks[j]])
                            && self@[ks[j]].missing_dep_count as int
                                == unknown_count(metas_refs(
                                    self@[ks[j]].content.meta)),
                decreases n - i,
            {
                proof {
                    self.lemma_view_props();
                    assert(self@.dom().contains(ks[i as int]));
                    assert(self@[ks[i as int]] == mid[ks[i as int]]);
                }
                let v = self.value_at_mut(i);
                let count = v.get_unknown_relations_count();
                v.missing_dep_count = count;
                proof {
                    assert(self@.dom() =~= mid.dom());
                    assert forall|j: int| 0 <= j < ks.len() && j != i
                        implies self@[ks[j]] == mid[ks[j]]
                            || same_but_counter(self@[ks[j]], mid[ks[j]]) by {
                        assert(ks[j] != ks[i as int]);
                    }
                }
                i = i + 1;
            }
            proof {
                self.lemma_view_props();
                assert forall|kv: Seq<char>| #[trigger] self@.dom().contains(kv)
                    implies self@[kv].missing_dep_count as int
                        == unknown_count(metas_refs(self@[kv].content.meta))
                        && same_but_counter(self@[kv], mid[kv]) by {
                    let j = choose|j: int| 0 <= j < ks.len() && ks[j] == kv;
                }
            }
        } else {
            let cn = changed.len();
            let mut c: usize = 0;
            while c < cn
                invariant
                    self.wf(),
                    self.key_seq() == ks,
                    self@.dom() == mid.dom(),
                    mid.dom() == pre0.dom(),
                    entries_bounded::<DocIdentifier, StatefulDoc>(pre0),
                    entries_bounded::<DocIdentifier, StatefulDoc>(mid),
                    counters_consistent(pre0),
                    cn == changed@.len(),
                    c <= cn,
                    chv == changes_view(changed@),
                    forall|cc: int| 0 <= cc < chv.len()
                        ==> mid.dom().contains((#[trigger] chv[cc]).0),
                    forall|c1: int, c2: int| 0 <= c1 < c2 < chv.len()
                        ==> (#[trigger] chv[c1]).0 != (#[trigger] chv[c2]).0,
                    forall|kv: Seq<char>| #[trigger] mid.dom().contains(kv)
                        ==> mid[kv].missing_dep_count == pre0[kv].missing_dep_count
                            && unknown_count(metas_refs(mid[kv].content.meta))
                                == unknown_count(metas_refs(pre0[kv].content.meta))
                                    - crate::resolve::delta_sum(chv, kv),
                    forall|kv: Seq<char>| #[trigger] mid.dom().contains(kv)
                        ==> same_but_counter(self@[kv], mid[kv]),
                    forall|kv: Seq<char>| #[trigger] mid.dom().contains(kv)
                        ==> self@[kv].missing_dep_count as int == (
                            if exists|c2: int|
                                0 <= c2 < c && (#[trigger] chv[c2]).0 == kv {
                                unknown_count(metas_refs(mid[kv].content.meta))
                            } else {
                                mid[kv].missing_dep_count as int
                            }),
                decreases cn - c,
            {
                proof {
                    self.lemma_view_props();
                    assert(mid.dom().contains(chv[c as int].0));
                    assert(chv[c as int].0 == changed@[c as int].0@);
                }
                let idx_opt = self.index_of(&changed[c].0);
                match idx_opt {
                    Some(i) => {
                        let ghost kv = changed@[c as int].0@;
                        proof {
                            assert(ks[i as int] == kv);
                            assert(!(exists|c2: int|
                                0 <= c2 < c && (#[trigger] chv[c2]).0 == kv)) by {
                                if exists|c2: int|
                                    0 <= c2 < c && (#[trigger] chv[c2]).0 == kv {
                                    let c2 = choose|c2: int|
                                        0 <= c2 < c && (#[trigger] chv[c2]).0 == kv;
                                    assert(chv[c2].0 == chv[c as int].0);
                                    assert(false);
                                }
                            }
                            lemma_delta_sum_at(chv, c as int);
                            assert(pre0.dom().contains(kv));
                            assert(metas_refs(pre0[kv].content.meta).len()
                                <= REFS_BOUND as int);
                            assert(metas_refs(mid[kv].content.meta).len()
                                <= REFS_BOUND as int);
                            lemma_unknown_count_bounds(
                                metas_refs(pre0[kv].content.meta));
                            lemma_unknown_count_bounds(
                                metas_refs(mid[kv].content.meta));
                            assert(unknown_count(metas_refs(mid[kv].content.meta))
                                == unknown_count(metas_refs(pre0[kv].content.meta))
                                    - chv[c as int].1);
                            assert(self@[kv].missing_dep_count
                                == mid[kv].missing_dep_count);
                            assert(mid[kv].missing_dep_count as int
                                == unknown_count(metas_refs(pre0[kv].content.meta)));
                            assert(changed@[c as int].1 as int == chv[c as int].1);
                        }
                        let ghost before = self@;
                        let delta = changed[c].1;
                        let v = self.value_at_mut(i);
                        update_missing_dep_count(v, delta);
                        proof {
                            assert(self@.dom() =~= mid.dom());
                            assert(self@[kv].missing_dep_count as int
                                == unknown_count(metas_refs(mid[kv].content.meta)));
                            assert forall|kv2: Seq<char>|
                                #[trigger] mid.dom().contains(kv2) && kv2 != kv
                                implies self@[kv2] == before[kv2] by {
                            }
                            assert forall|kv2: Seq<char>| #[trigger] mid.dom().contains(kv2)
                                implies self@[kv2].missing_dep_count as int == (
                                    if exists|c2: int| 0 <= c2 < c + 1
                                        && (#[trigger] chv[c2]).0 == kv2 {
                                        unknown_count(metas_refs(mid[kv2].content.meta))
                                    } else {
                                        mid[kv2].missing_dep_count as int
                                    }) by {
                                if kv2 == kv {
                                    assert(chv[c as int].0 == kv2);
                                } else {
                                    if exists|c2: int| 0 <= c2 < c + 1
                                        && (#[trigger] chv[c2]).0 == kv2 {
                                        let c2 = choose|c2: int| 0 <= c2 < c + 1
                                            && (#[trigger] chv[c2]).0 == kv2;
                                        assert(c2 < c);
                                    }
                                }
                            }
                        }
                    }
                    None => {
                        proof {
                            assert(false);
                        }
                    }
                }
                c = c + 1;
            }
            proof {
                self.lemma_view_props();
                assert forall|kv: Seq<char>| #[trigger] self@.dom().contains(kv)
                    implies self@[kv].missing_dep_count as int
                        == unknown_count(metas_refs(self@[kv].content.meta)) by {
                    assert(mid.dom().contains(kv));
                    if exists|c2: int| 0 <= c2 < cn && (#[trigger] chv[c2]).0 == kv {
                        assert(self@[kv].missing_dep_count as int
                            == unknown_count(metas_refs(mid[kv].content.meta)));
                    } else {
                        assert forall|c2: int| 0 <= c2 < chv.len()
                            implies (#[trigger] chv[c2]).0 != kv by {
                        }
                        lemma_delta_sum_absent(chv, kv);
                        assert(self@[kv].missing_dep_count
                            == mid[kv].missing_dep_count);
                    }
                    assert(same_but_counter(self@[kv], mid[kv]));
                }
            }
        }
        proof {
            // tags, reference counts and bounds all survived the counter fix
            assert forall|kv: Seq<char>| #[trigger] self@.dom().contains(kv)
                implies refs_agree(metas_refs(self@[kv].content.meta), self@.dom())
                    && StatefulDoc::refs_of(self@[kv]).len() <= REFS_BOUND as int
                    && unknown_count(metas_refs(self@[kv].content.meta))
                        == unknown_count(metas_refs(pre0[kv].content.meta))
                            - crate::resolve::delta_sum(chv, kv) by {
                assert(mid.dom().contains(kv));
                assert(same_but_counter(self@[kv], mid[kv]));
                assert(self@[kv].content == mid[kv].content);
                assert(self@.dom() =~= mid.dom());
                assert(StatefulDoc::erase_tags(mid[kv])
                    == StatefulDoc::erase_tags(pre0[kv]));
                assert(erase_resolution_state(self@[kv])
                    == erase_resolution_state(pre0[kv]));
            }
        }
        changed
    }
}

/// A metadata prefix's reference sequence is a prefix of the whole
/// document's: position `a` holds the same reference in both.
proof fn lemma_refs_prefix_of_whole(ms: Seq<MetaView>, i: int, a: int)
    requires
        0 <= i <= ms.len(),
        0 <= a < metas_refs(ms.subrange(0, i)).len(),
    ensures
        metas_refs(ms.subrange(0, i))[a] == metas_refs(ms)[a],
    decreases ms.len() - i,
{
    if i == ms.len() {
        assert(ms.subrange(0, i) =~= ms);
    } else {
        lemma_metas_prefix(ms, i);
        lemma_refs_prefix_of_whole(ms, i + 1, a);
        assert(metas_refs(ms.subrange(0, i + 1))[a]
            == metas_refs(ms.subrange(0, i))[a]);
    }
}

/// Count the unknown references in a reference list.
fn list_unknown_count(l: &Vec<CacheReference<DocIdentifier>>) -> (n: usize)
    ensures
        n as int == unknown_count(ref_views(l@)),
        n as int <= ref_views(l@).len(),
{
    let k = l.len();
    let mut total: usize = 0;
    let mut i: usize = 0;
    proof {
        assert(ref_views(l@).subrange(0, 0) =~= Seq::<(Seq<char>, bool)>::empty());
    }
    while i < k
        invariant
            k == l@.len(),
            i <= k,
            total as int == unknown_count(ref_views(l@).subrange(0, i as int)),
            total as int <= i,
        decreases k - i,
    {
        proof {
            assert(ref_views(l@).subrange(0, i + 1).drop_last()
                =~= ref_views(l@).subrange(0, i as int));
            assert(ref_views(l@).subrange(0, i + 1).last() == ref_views(l@)[i as int]);
            assert(ref_views(l@)[i as int] == l@[i as int]@);
        }
        if !l[i].is_cached() {
            total = total + 1;
        }
        i = i + 1;
    }
    proof {
        assert(ref_views(l@).subrange(0, k as int) =~= ref_views(l@));
    }
    total
}

} // verus!
