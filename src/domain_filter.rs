//! The domains a provider claims, as told to the controller.
//!
//! On the wire the two forms carry no tag: a reader tries the string form
//! first and the regular-expression form second, and takes the first that
//! fits.
use vstd::prelude::*;

verus! {

/// Whether `pattern` is a regular expression that the `regex` crate accepts.
pub uninterp spec fn regex_compiles(pattern: Seq<char>) -> bool;

/// Relies on `regex::Regex::new`: it fails exactly on the patterns it
/// cannot compile, which depends on the pattern alone.
#[verifier::external_body]
fn compiles(pattern: &str) -> (r: bool)
    ensures
        r == regex_compiles(pattern@),
{
    regex::Regex::new(pattern).is_ok()
}

/// A regular expression, kept as the pattern it was written as.
#[derive(Debug)]
pub struct RegexPattern {
    source: String,
}

impl View for RegexPattern {
    type V = Seq<char>;

    closed spec fn view(&self) -> Seq<char> {
        self.source@
    }
}

impl RegexPattern {
    /// Checks that `source` compiles.
    pub fn new(source: String) -> (r: Result<RegexPattern, DomainFilterError>)
        ensures
            r is Ok <==> regex_compiles(source@),
            r matches Ok(p) ==> p@ == source@,
            r matches Err(e) ==> e == DomainFilterError::InvalidRegex,
    {
        if compiles(source.as_str()) {
            Ok(RegexPattern { source })
        } else {
            Err(DomainFilterError::InvalidRegex)
        }
    }

    /// The pattern as written.
    pub fn as_str(&self) -> (r: &str)
        ensures
            r@ == self@,
    {
        self.source.as_str()
    }

    /// Gives back the pattern as written.
    pub fn into_string(self) -> (r: String)
        ensures
            r@ == self@,
    {
        self.source
    }
}

/// Why a domain filter could not be read.
#[derive(Debug, Clone, Copy, PartialEq, Eq, Structural)]
pub enum DomainFilterError {
    /// String and regular-expression fields were sent together.
    MixedFields,
    /// A regular-expression field does not compile.
    InvalidRegex,
}

/// The domains a provider handles: by name, or by regular expression.
#[derive(Debug)]
pub enum DomainFilter {
    Strings { included: Option<Vec<String>>, excluded: Option<Vec<String>> },
    Regex { regex_include: Option<RegexPattern>, regex_exclude: Option<RegexPattern> },
}

pub enum DomainFilterView {
    Strings { included: Option<Seq<Seq<char>>>, excluded: Option<Seq<Seq<char>>> },
    Regex { regex_include: Option<Seq<char>>, regex_exclude: Option<Seq<char>> },
}

pub open spec fn opt_list_view(v: Option<Vec<String>>) -> Option<Seq<Seq<char>>> {
    match v {
        Some(x) => Some(x@.map_values(|s: String| s@)),
        None => None,
    }
}

pub open spec fn opt_pattern_view(p: Option<RegexPattern>) -> Option<Seq<char>> {
    match p {
        Some(x) => Some(x@),
        None => None,
    }
}

pub open spec fn opt_string_view(p: Option<String>) -> Option<Seq<char>> {
    match p {
        Some(x) => Some(x@),
        None => None,
    }
}

impl View for DomainFilter {
    type V = DomainFilterView;

    open spec fn view(&self) -> DomainFilterView {
        match self {
            DomainFilter::Strings { included, excluded } => DomainFilterView::Strings {
                included: opt_list_view(*included),
                excluded: opt_list_view(*excluded),
            },
            DomainFilter::Regex { regex_include, regex_exclude } => DomainFilterView::Regex {
                regex_include: opt_pattern_view(*regex_include),
                regex_exclude: opt_pattern_view(*regex_exclude),
            },
        }
    }
}

pub open spec fn opt_compiles(p: Option<Seq<char>>) -> bool {
    p matches Some(s) ==> regex_compiles(s)
}

/// Every pattern of the filter compiles.
pub open spec fn filter_wf(f: DomainFilterView) -> bool {
    f matches DomainFilterView::Regex { regex_include, regex_exclude } ==> opt_compiles(
        regex_include,
    ) && opt_compiles(regex_exclude)
}

/// A domain filter as it stands on the wire: each key present or not.
pub struct DomainFilterWire {
    pub included: Option<Vec<String>>,
    pub excluded: Option<Vec<String>>,
    pub regex_include: Option<String>,
    pub regex_exclude: Option<String>,
}

pub struct DomainFilterWireView {
    pub included: Option<Seq<Seq<char>>>,
    pub excluded: Option<Seq<Seq<char>>>,
    pub regex_include: Option<Seq<char>>,
    pub regex_exclude: Option<Seq<char>>,
}

impl View for DomainFilterWire {
    type V = DomainFilterWireView;

    open spec fn view(&self) -> DomainFilterWireView {
        DomainFilterWireView {
            included: opt_list_view(self.included),
            excluded: opt_list_view(self.excluded),
            regex_include: opt_string_view(self.regex_include),
            regex_exclude: opt_string_view(self.regex_exclude),
        }
    }
}

/// The wire form of a filter: the fields of its own form, and no tag.
pub open spec fn encode_filter(f: DomainFilterView) -> DomainFilterWireView {
    match f {
        DomainFilterView::Strings { included, excluded } => DomainFilterWireView {
            included,
            excluded,
            regex_include: None,
            regex_exclude: None,
        },
        DomainFilterView::Regex { regex_include, regex_exclude } => DomainFilterWireView {
            included: None,
            excluded: None,
            regex_include,
            regex_exclude,
        },
    }
}

/// The filter a wire form stands for: the string form where no regular
/// expression key is present; else the regular-expression form where no
/// string key is present and the patterns compile.
pub open spec fn decode_filter(w: DomainFilterWireView) -> Result<
    DomainFilterView,
    DomainFilterError,
> {
    if w.regex_include is None && w.regex_exclude is None {
        Ok(DomainFilterView::Strings { included: w.included, excluded: w.excluded })
    } else if w.included is Some || w.excluded is Some {
        Err(DomainFilterError::MixedFields)
    } else if !opt_compiles(w.regex_include) || !opt_compiles(w.regex_exclude) {
        Err(DomainFilterError::InvalidRegex)
    } else {
        Ok(
            DomainFilterView::Regex {
                regex_include: w.regex_include,
                regex_exclude: w.regex_exclude,
            },
        )
    }
}

pub open spec fn filter_result_view(r: Result<DomainFilter, DomainFilterError>) -> Result<
    DomainFilterView,
    DomainFilterError,
> {
    match r {
        Ok(f) => Ok(f@),
        Err(e) => Err(e),
    }
}

fn pattern_from_wire(p: Option<String>) -> (r: Result<Option<RegexPattern>, DomainFilterError>)
    ensures
        r is Ok <==> opt_compiles(opt_string_view(p)),
        r matches Ok(x) ==> opt_pattern_view(x) == opt_string_view(p),
        r matches Err(e) ==> e == DomainFilterError::InvalidRegex,
{
    match p {
        Some(s) => match RegexPattern::new(s) {
            Ok(x) => Ok(Some(x)),
            Err(e) => Err(e),
        },
        None => Ok(None),
    }
}

fn pattern_to_wire(p: Option<RegexPattern>) -> (r: Option<String>)
    ensures
        opt_string_view(r) == opt_pattern_view(p),
{
    match p {
        Some(x) => Some(x.into_string()),
        None => None,
    }
}

impl DomainFilter {
    /// Reads a filter from its wire form, trying the string form first.
    pub fn from_wire(w: DomainFilterWire) -> (r: Result<DomainFilter, DomainFilterError>)
        ensures
            filter_result_view(r) == decode_filter(w@),
            r matches Ok(f) ==> filter_wf(f@),
    {
        let DomainFilterWire { included, excluded, regex_include, regex_exclude } = w;
        if regex_include.is_none() && regex_exclude.is_none() {
            return Ok(DomainFilter::Strings { included, excluded });
        }
        if included.is_some() || excluded.is_some() {
            return Err(DomainFilterError::MixedFields);
        }
        let regex_include = match pattern_from_wire(regex_include) {
            Ok(p) => p,
            Err(e) => return Err(e),
        };
        let regex_exclude = match pattern_from_wire(regex_exclude) {
            Ok(p) => p,
            Err(e) => return Err(e),
        };
        Ok(DomainFilter::Regex { regex_include, regex_exclude })
    }

    /// The wire form of this filter.
    pub fn into_wire(self) -> (w: DomainFilterWire)
        ensures
            w@ == encode_filter(self@),
    {
        match self {
            DomainFilter::Strings { included, excluded } => DomainFilterWire {
                included,
                excluded,
                regex_include: None,
                regex_exclude: None,
            },
            DomainFilter::Regex { regex_include, regex_exclude } => DomainFilterWire {
                included: None,
                excluded: None,
                regex_include: pattern_to_wire(regex_include),
                regex_exclude: pattern_to_wire(regex_exclude),
            },
        }
    }
}

/// Reading back the wire form of a filter gives that filter. The one
/// exception is a regular-expression filter with neither field, whose wire
/// form is empty and reads back as the string form.
pub proof fn lemma_filter_round_trip(f: DomainFilterView)
    requires
        filter_wf(f),
        !(f matches DomainFilterView::Regex { regex_include: None, regex_exclude: None }),
    ensures
        decode_filter(encode_filter(f)) == Ok::<DomainFilterView, DomainFilterError>(f),
{
}

} // verus!
