//! Directives carried inside a user name.
//!
//! A user name may hold, after a delimiter, a list of directives separated by
//! commas: `john-country=us,mobile`. A directive is `key=value` or a bare
//! flag. The directives are advisory: one that is not known, or not well
//! formed, is passed over.

use vstd::prelude::*;
use vstd::string::*;
use crate::text::{
    find, first_index, has_code, lemma_first_index, pieces, same, split, views_of,
};

verus! {

/// What the directives of a user name ask of the proxy that serves the request.
#[derive(Debug)]
pub struct ProxyFilter {
    /// The country to leave from, given by `country=..` or `cc=..`.
    pub country: Option<String>,
    /// Whether a datacenter address is asked for, by the flag `datacenter`.
    pub datacenter: bool,
    /// Whether a residential address is asked for, by the flag `residential`.
    pub residential: bool,
    /// Whether a mobile address is asked for, by the flag `mobile`.
    pub mobile: bool,
}

/// A filter as a mathematical value.
pub struct ProxyFilterView {
    pub country: Option<Seq<char>>,
    pub datacenter: bool,
    pub residential: bool,
    pub mobile: bool,
}

impl View for ProxyFilter {
    type V = ProxyFilterView;

    open spec fn view(&self) -> ProxyFilterView {
        ProxyFilterView {
            country: match self.country {
                Some(code) => Some(code@),
                None => None,
            },
            datacenter: self.datacenter,
            residential: self.residential,
            mobile: self.mobile,
        }
    }
}

impl Clone for ProxyFilter {
    fn clone(&self) -> (copy: ProxyFilter)
        ensures
            copy@ == self@,
    {
        ProxyFilter {
            country: match &self.country {
                Some(code) => Some(code.clone()),
                None => None,
            },
            datacenter: self.datacenter,
            residential: self.residential,
            mobile: self.mobile,
        }
    }
}

/// The view of a filter that may be absent.
pub open spec fn filter_view(filter: Option<ProxyFilter>) -> Option<ProxyFilterView> {
    match filter {
        Some(filter) => Some(filter@),
        None => None,
    }
}

impl ProxyFilterView {
    /// The filter that asks for nothing.
    pub open spec fn empty() -> ProxyFilterView {
        ProxyFilterView { country: None, datacenter: false, residential: false, mobile: false }
    }

    /// The filter after one more directive. `country=` and `cc=` with a value
    /// that is not empty set the country; `datacenter`, `residential` and
    /// `mobile` set their flags; anything else changes nothing.
    pub open spec fn with_directive(self, directive: Seq<char>) -> ProxyFilterView {
        let cut = first_index(directive, '=' as u32) as int;
        if cut < directive.len() {
            let key = directive.take(cut);
            let value = directive.skip(cut + 1);
            if (key == "country"@ || key == "cc"@) && value.len() > 0 {
                ProxyFilterView { country: Some(value), ..self }
            } else {
                self
            }
        } else if directive == "datacenter"@ {
            ProxyFilterView { datacenter: true, ..self }
        } else if directive == "residential"@ {
            ProxyFilterView { residential: true, ..self }
        } else if directive == "mobile"@ {
            ProxyFilterView { mobile: true, ..self }
        } else {
            self
        }
    }
}

/// The filter that a list of directives adds up to, taken in order.
pub open spec fn directives_filter(directives: Seq<Seq<char>>) -> ProxyFilterView
    decreases directives.len(),
{
    if directives.len() == 0 {
        ProxyFilterView::empty()
    } else {
        directives_filter(directives.drop_last()).with_directive(directives.last())
    }
}

/// The plain user name and the filter that a raw user name holds, for the
/// delimiter with the code point `code`.
///
/// Without the delimiter the raw name is the plain name and there is no
/// filter. With it, the plain name is what stands before its first
/// occurrence, and what follows is a list of directives between commas. A
/// list that sets nothing gives no filter.
pub open spec fn parsed_username(raw: Seq<char>, code: u32) -> (Seq<char>, Option<ProxyFilterView>) {
    let cut = first_index(raw, code) as int;
    if cut >= raw.len() {
        (raw, None)
    } else {
        let filter = directives_filter(pieces(raw.skip(cut + 1), ','));
        (
            raw.take(cut),
            if filter == ProxyFilterView::empty() {
                None
            } else {
                Some(filter)
            },
        )
    }
}

/// A raw user name without the delimiter is the plain user name and holds no
/// filter. With the delimiter, the plain user name is what stands before its
/// first occurrence, and so holds no delimiter itself.
pub proof fn lemma_plain_username(raw: Seq<char>, code: u32)
    ensures
        !has_code(raw, code) ==> parsed_username(raw, code) == (raw, None::<ProxyFilterView>),
        has_code(raw, code) ==> parsed_username(raw, code).0.len() < raw.len(),
        !has_code(parsed_username(raw, code).0, code),
        parsed_username(raw, code).0 =~= raw.take(first_index(raw, code) as int),
{
    lemma_first_index(raw, code);
    let plain = parsed_username(raw, code).0;
    if has_code(plain, code) {
        let i = choose|i: int| 0 <= i < plain.len() && #[trigger] plain[i] as u32 == code;
        assert(raw[i] == plain[i]);
    }
}

/// Takes one directive into the filter.
fn apply_directive(filter: &mut ProxyFilter, directive: &str)
    ensures
        final(filter)@ == old(filter)@.with_directive(directive@),
{
    let cut = find(directive, '=' as u32);
    let len = directive.unicode_len();
    if cut < len {
        let key = directive.substring_char(0, cut);
        let value = directive.substring_char(cut + 1, len);
        if (same(key, "country") || same(key, "cc")) && !value.is_empty() {
            filter.country = Some(value.to_owned());
        }
    } else if same(directive, "datacenter") {
        filter.datacenter = true;
    } else if same(directive, "residential") {
        filter.residential = true;
    } else if same(directive, "mobile") {
        filter.mobile = true;
    }
}

/// Whether the filter asks for nothing.
fn asks_nothing(filter: &ProxyFilter) -> (nothing: bool)
    ensures
        nothing == (filter@ == ProxyFilterView::empty()),
{
    filter.country.is_none() && !filter.datacenter && !filter.residential && !filter.mobile
}

/// Parses a raw user name for the delimiter with the code point `code`.
pub fn parse_for_code(raw: &str, code: u32) -> (out: (String, Option<ProxyFilter>))
    ensures
        (out.0@, filter_view(out.1)) == parsed_username(raw@, code),
{
    let cut = find(raw, code);
    let len = raw.unicode_len();
    if cut >= len {
        return (raw.to_owned(), None);
    }
    let directives = split(raw.substring_char(cut + 1, len), ',');
    let ghost wanted = pieces(raw@.skip(cut + 1), ',');
    let mut filter = ProxyFilter {
        country: None,
        datacenter: false,
        residential: false,
        mobile: false,
    };
    let mut i: usize = 0;
    assert(wanted.take(0) =~= Seq::empty());
    while i < directives.len()
        invariant
            i <= directives@.len(),
            views_of(directives@) == wanted,
            filter@ == directives_filter(wanted.take(i as int)),
        decreases directives.len() - i,
    {
        proof {
            assert(wanted.take(i + 1).drop_last() =~= wanted.take(i as int));
            assert(wanted.take(i + 1).last() == directives@[i as int]@);
        }
        apply_directive(&mut filter, directives[i]);
        i += 1;
    }
    assert(wanted.take(i as int) =~= wanted);
    let plain = raw.substring_char(0, cut).to_owned();
    if asks_nothing(&filter) {
        (plain, None)
    } else {
        (plain, Some(filter))
    }
}

/// Parses a raw user name for a delimiter: the plain user name, and the
/// filter that the directives after the delimiter add up to, if they set
/// anything.
pub fn parse_username(raw: &str, delimiter: char) -> (out: (String, Option<ProxyFilter>))
    ensures
        (out.0@, filter_view(out.1)) == parsed_username(raw@, delimiter as u32),
{
    parse_for_code(raw, delimiter as u32)
}

/// A user name parsed for the delimiter whose code point is `C`, and the
/// label of an authority that reads user names in this way.
#[derive(Debug)]
pub struct UsernameConfig<const C: u32> {
    username: String,
    filter: Option<ProxyFilter>,
}

impl<const C: u32> UsernameConfig<C> {
    /// Parses a raw user name.
    pub fn parse(raw: &str) -> (config: UsernameConfig<C>)
        ensures
            config.parts() == parsed_username(raw@, C),
    {
        let (username, filter) = parse_for_code(raw, C);
        UsernameConfig { username, filter }
    }

    /// The plain user name and the filter, as mathematical values.
    pub closed spec fn parts(&self) -> (Seq<char>, Option<ProxyFilterView>) {
        (self.username@, filter_view(self.filter))
    }

    /// The plain user name and the filter.
    pub fn into_parts(self) -> (out: (String, Option<ProxyFilter>))
        ensures
            (out.0@, filter_view(out.1)) == self.parts(),
    {
        (self.username, self.filter)
    }
}

} // verus!
