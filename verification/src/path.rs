//! Route patterns and the matching of request paths against them.

use vstd::prelude::*;
use vstd::string::*;
use crate::context::{Extensions, ExtensionsView};
use crate::params::{UriParams, UriParamsView};
use crate::percent::{decode_segment, lemma_value_not_empty, segment_value};
use crate::text::{
    contains, eq_ignore_ascii_case, first_index, lemma_code_identifies, lemma_empty_pieces,
    lemma_first_index, lemma_trimmed_ignores_ends, lemma_trimmed_within, lowercase, pieces, same,
    same_ignoring_ascii_case, split, strip_leading, to_lowercase, trim_matches,
    trim_start_matches, trimmed, views_of,
};

verus! {

/// One classified token of a route pattern.
#[derive(Debug)]
pub enum PathFragment {
    /// A segment that must equal this text, ASCII case aside.
    Literal(String),
    /// A segment that is captured under this name.
    Param(String),
    /// The rest of the path.
    Glob,
}

/// A compiled route pattern.
#[derive(Debug)]
pub enum PathMatcher {
    /// The whole trimmed path must equal this text, ASCII case aside.
    Literal(String),
    /// The segments of the path are held against these fragments in turn.
    FragmentList(Vec<PathFragment>),
}

/// A fragment as a mathematical value.
pub enum FragmentView {
    Literal(Seq<char>),
    Param(Seq<char>),
    Glob,
}

/// A compiled pattern as a mathematical value.
pub enum PatternView {
    Literal(Seq<char>),
    FragmentList(Seq<FragmentView>),
}

impl View for PathFragment {
    type V = FragmentView;

    open spec fn view(&self) -> FragmentView {
        match self {
            PathFragment::Literal(text) => FragmentView::Literal(text@),
            PathFragment::Param(name) => FragmentView::Param(name@),
            PathFragment::Glob => FragmentView::Glob,
        }
    }
}

/// The views of a list of fragments.
pub open spec fn fragment_views(fragments: Seq<PathFragment>) -> Seq<FragmentView> {
    Seq::new(fragments.len(), |i: int| fragments[i]@)
}

impl View for PathMatcher {
    type V = PatternView;

    open spec fn view(&self) -> PatternView {
        match self {
            PathMatcher::Literal(text) => PatternView::Literal(text@),
            PathMatcher::FragmentList(fragments) => PatternView::FragmentList(
                fragment_views(fragments@),
            ),
        }
    }
}

impl PatternView {
    /// Whether a wildcard stands nowhere but at the end of the fragments.
    pub open spec fn glob_only_last(self) -> bool {
        match self {
            PatternView::Literal(_) => true,
            PatternView::FragmentList(fragments) => forall|i: int|
                0 <= i < fragments.len() && #[trigger] fragments[i] is Glob ==> i == fragments.len()
                    - 1,
        }
    }
}

/// Whether the text holds a character that makes a pattern more than a
/// literal: `:` or `*`.
pub open spec fn has_marker(text: Seq<char>) -> bool {
    text.contains(':') || text.contains('*')
}

/// The test that a piece of a pattern passes to count as a token.
pub open spec fn is_token() -> spec_fn(Seq<char>) -> bool {
    |piece: Seq<char>| piece.len() > 0
}

/// The tokens of a trimmed pattern: its pieces between slashes, without the
/// empty ones that repeated slashes leave.
pub open spec fn tokens(text: Seq<char>) -> Seq<Seq<char>> {
    pieces(text, '/').filter(is_token())
}

/// The fragment that a token stands for. A token that starts with `:` names a
/// parameter; `*` is the wildcard where it is the last token, and a literal
/// anywhere else; every other token is a literal.
pub open spec fn classified(token: Seq<char>, last: bool) -> FragmentView {
    if token.len() > 0 && token[0] == ':' {
        FragmentView::Param(lowercase(strip_leading(token, ':')))
    } else if last && token == seq!['*'] {
        FragmentView::Glob
    } else {
        FragmentView::Literal(lowercase(token))
    }
}

/// The pattern that a pattern text compiles to.
pub open spec fn compiled(pattern: Seq<char>) -> PatternView {
    let path = trimmed(pattern, '/');
    if !has_marker(path) {
        PatternView::Literal(lowercase(path))
    } else {
        let all = tokens(path);
        PatternView::FragmentList(
            Seq::new(all.len(), |i: int| classified(all[i], i == all.len() - 1)),
        )
    }
}

/// Whether a segment satisfies a fragment that takes exactly one segment.
pub open spec fn fits(fragment: FragmentView, segment: Seq<char>) -> bool {
    match fragment {
        FragmentView::Literal(text) => same_ignoring_ascii_case(text, segment),
        FragmentView::Param(_) => segment.len() > 0,
        FragmentView::Glob => true,
    }
}

/// The number of fragments that take exactly one segment each: all of them,
/// but for a wildcard at the end.
pub open spec fn fixed_len(fragments: Seq<FragmentView>) -> int {
    if fragments.len() > 0 && fragments.last() is Glob {
        fragments.len() - 1
    } else {
        fragments.len() as int
    }
}

/// The named parameters that the first `upto` fragments capture from the
/// segments at their positions, a later capture replacing an earlier one of
/// the same name. Absent where none of these fragments is a parameter.
pub open spec fn captured(
    fragments: Seq<FragmentView>,
    segments: Seq<Seq<char>>,
    upto: int,
) -> UriParamsView
    decreases upto,
{
    if upto <= 0 {
        UriParamsView::empty()
    } else {
        let before = captured(fragments, segments, upto - 1);
        match fragments[upto - 1] {
            FragmentView::Param(name) => before.with_param(name, segment_value(segments[upto - 1])),
            _ => before,
        }
    }
}

/// The segments in order, each with a slash before it.
pub open spec fn slash_joined(segments: Seq<Seq<char>>) -> Seq<char>
    decreases segments.len(),
{
    if segments.len() == 0 {
        Seq::empty()
    } else {
        slash_joined(segments.drop_last()) + seq!['/'] + segments.last()
    }
}

/// What the fragments extract from the segments of a path, if the segments
/// satisfy them.
///
/// Each fragment before a final wildcard takes exactly one segment, which must
/// fit it. Without a final wildcard no segment may be left over. A final
/// wildcard takes all segments that are left over; where none is, it captures
/// nothing.
pub open spec fn matched_segments(
    fragments: Seq<FragmentView>,
    segments: Seq<Seq<char>>,
) -> Option<UriParamsView> {
    let fixed = fixed_len(fragments);
    let enough = if fixed < fragments.len() {
        segments.len() >= fixed
    } else {
        segments.len() == fixed
    };
    if enough && (forall|i: int| 0 <= i < fixed ==> fits(#[trigger] fragments[i], segments[i])) {
        Some(
            UriParamsView {
                params: captured(fragments, segments, fixed).params,
                glob: if segments.len() > fixed {
                    Some(slash_joined(segments.skip(fixed)))
                } else {
                    None
                },
            },
        )
    } else {
        None
    }
}

/// What a compiled pattern extracts from a path, if the path matches it.
pub open spec fn matched(pattern: PatternView, path: Seq<char>) -> Option<UriParamsView> {
    let path = trimmed(path, '/');
    match pattern {
        PatternView::Literal(text) => if same_ignoring_ascii_case(text, path) {
            Some(UriParamsView::empty())
        } else {
            None
        },
        PatternView::FragmentList(fragments) => matched_segments(fragments, pieces(path, '/')),
    }
}

/// Every compiled pattern is well formed: a wildcard stands nowhere but at
/// the end of its fragments, and a list of fragments is never empty.
pub proof fn lemma_compiled_well_formed(pattern: Seq<char>)
    ensures
        compiled(pattern).glob_only_last(),
        compiled(pattern) matches PatternView::FragmentList(fragments) ==> fragments.len() > 0,
{
    let path = trimmed(pattern, '/');
    if has_marker(path) {
        let all = pieces(path, '/');
        if tokens(path).len() == 0 {
            assert forall|i: int| 0 <= i < all.len() implies (#[trigger] all[i]).len() == 0 by {
                if all[i].len() > 0 {
                    all.lemma_filter_contains(is_token(), i);
                }
            }
            lemma_empty_pieces(path, '/');
        }
    }
}

/// Joining one list of segments after another joins their texts.
pub proof fn lemma_slash_joined_concat(front: Seq<Seq<char>>, back: Seq<Seq<char>>)
    ensures
        slash_joined(front + back) == slash_joined(front) + slash_joined(back),
    decreases back.len(),
{
    if back.len() == 0 {
        assert(front + back =~= front);
        assert(slash_joined(front) + slash_joined(back) =~= slash_joined(front));
    } else {
        lemma_slash_joined_concat(front, back.drop_last());
        assert((front + back).drop_last() =~= front + back.drop_last());
        assert((front + back).last() == back.last());
        assert(slash_joined(front + back) =~= slash_joined(front) + slash_joined(back));
    }
}

/// The segments of a text, joined again, are the text after a slash.
pub proof fn lemma_slash_joined_pieces(text: Seq<char>)
    ensures
        slash_joined(pieces(text, '/')) == seq!['/'] + text,
    decreases text.len(),
{
    let cut = first_index(text, '/' as u32) as int;
    lemma_first_index(text, '/' as u32);
    let head = seq![text.take(cut)];
    assert(head.drop_last() =~= Seq::<Seq<char>>::empty());
    assert(slash_joined(Seq::<Seq<char>>::empty()) =~= Seq::<char>::empty());
    assert(head.last() == text.take(cut));
    assert(slash_joined(head) =~= seq!['/'] + text.take(cut));
    if cut >= text.len() {
        assert(text.take(cut) =~= text);
    } else {
        let tail = text.skip(cut + 1);
        lemma_slash_joined_pieces(tail);
        lemma_slash_joined_concat(head, pieces(tail, '/'));
        lemma_code_identifies(text[cut], '/');
        assert(seq!['/'] + text.take(cut) + (seq!['/'] + tail) =~= seq!['/'] + text);
    }
}

/// What the wildcard captures is the end of the path: the path without the
/// slashes at either end, after one slash, is the segments that the fragments
/// before the wildcard took, each after a slash, and then the capture.
pub proof fn lemma_glob_is_path_tail(fragments: Seq<FragmentView>, path: Seq<char>)
    requires
        matched(PatternView::FragmentList(fragments), path).is_some(),
        matched(PatternView::FragmentList(fragments), path).unwrap().glob.is_some(),
    ensures
        seq!['/'] + trimmed(path, '/') == slash_joined(
            pieces(trimmed(path, '/'), '/').take(fixed_len(fragments)),
        ) + matched(PatternView::FragmentList(fragments), path).unwrap().glob.unwrap(),
{
    let segments = pieces(trimmed(path, '/'), '/');
    let fixed = fixed_len(fragments);
    lemma_slash_joined_pieces(trimmed(path, '/'));
    lemma_slash_joined_concat(segments.take(fixed), segments.skip(fixed));
    assert(segments.take(fixed) + segments.skip(fixed) =~= segments);
}

/// A pattern without `:` and `*` compiles to a literal: its text without the
/// slashes at either end, in lower case. A path matches it exactly when,
/// without the slashes at either end, it equals that literal, ASCII case
/// aside; and a match extracts nothing.
pub proof fn lemma_plain_pattern(pattern: Seq<char>, path: Seq<char>)
    requires
        !has_marker(pattern),
    ensures
        compiled(pattern) == PatternView::Literal(lowercase(trimmed(pattern, '/'))),
        matched(compiled(pattern), path) == if same_ignoring_ascii_case(
            lowercase(trimmed(pattern, '/')),
            trimmed(path, '/'),
        ) {
            Some(UriParamsView::empty())
        } else {
            None
        },
{
    lemma_trimmed_within(pattern, '/');
}

/// The empty path and the path `/` are the same to every pattern.
pub proof fn lemma_root_paths_agree(pattern: PatternView)
    ensures
        matched(pattern, Seq::<char>::empty()) == matched(pattern, seq!['/']),
{
    lemma_trimmed_ignores_ends(Seq::<char>::empty(), '/');
    assert(Seq::<char>::empty().push('/') =~= seq!['/']);
}

/// A slash more at the start or at the end of a path changes nothing of what
/// a pattern makes of it.
pub proof fn lemma_outer_slashes_irrelevant(pattern: PatternView, path: Seq<char>)
    ensures
        matched(pattern, seq!['/'] + path) == matched(pattern, path),
        matched(pattern, path.push('/')) == matched(pattern, path),
{
    lemma_trimmed_ignores_ends(path, '/');
}

/// In a match, every parameter fragment has a segment at its position, and
/// that segment is not empty.
pub proof fn lemma_param_segment_not_empty(
    fragments: Seq<FragmentView>,
    segments: Seq<Seq<char>>,
    at: int,
)
    requires
        matched_segments(fragments, segments).is_some(),
        0 <= at < fragments.len(),
        fragments[at] is Param,
    ensures
        at < segments.len(),
        segments[at].len() > 0,
{
    assert(at < fixed_len(fragments));
    assert(fits(fragments[at], segments[at]));
}

/// The values captured from segments that fit their fragments are not empty.
pub proof fn lemma_captured_values_not_empty(
    fragments: Seq<FragmentView>,
    segments: Seq<Seq<char>>,
    upto: int,
)
    requires
        0 <= upto <= fragments.len(),
        upto <= segments.len(),
        forall|i: int| 0 <= i < upto ==> fits(#[trigger] fragments[i], segments[i]),
    ensures
        captured(fragments, segments, upto).params matches Some(values) ==> forall|
            name: Seq<char>,
        |
            values.contains_key(name) ==> (#[trigger] values[name]).len() > 0,
    decreases upto,
{
    if upto > 0 {
        lemma_captured_values_not_empty(fragments, segments, upto - 1);
        if fragments[upto - 1] is Param {
            assert(fits(fragments[upto - 1], segments[upto - 1]));
            lemma_value_not_empty(segments[upto - 1]);
        }
    }
}

/// No match records an empty value for a parameter: a parameter takes a
/// segment that is not empty, and decoding leaves no such segment empty.
pub proof fn lemma_param_values_not_empty(pattern: PatternView, path: Seq<char>, name: Seq<char>)
    requires
        matched(pattern, path).is_some(),
        matched(pattern, path).unwrap().params.is_some(),
        matched(pattern, path).unwrap().params.unwrap().contains_key(name),
    ensures
        matched(pattern, path).unwrap().params.unwrap()[name].len() > 0,
{
    match pattern {
        PatternView::Literal(_) => {},
        PatternView::FragmentList(fragments) => {
            lemma_captured_values_not_empty(
                fragments,
                pieces(trimmed(path, '/'), '/'),
                fixed_len(fragments),
            );
        },
    }
}

/// A pattern whose first fragment is a parameter matches neither the empty
/// path nor the path `/`: their one segment is empty.
pub proof fn lemma_param_rejects_root(fragments: Seq<FragmentView>)
    requires
        fragments.len() > 0,
        fragments[0] is Param,
    ensures
        matched(PatternView::FragmentList(fragments), Seq::<char>::empty()).is_none(),
        matched(PatternView::FragmentList(fragments), seq!['/']).is_none(),
{
    lemma_root_paths_agree(PatternView::FragmentList(fragments));
    let root = Seq::<char>::empty();
    assert(trimmed(root, '/') =~= root);
    assert(pieces(root, '/') =~= seq![root]);
    assert(0 < fixed_len(fragments));
    assert(!fits(fragments[0], pieces(root, '/')[0]));
}

/// A filter on the path of a request.
#[derive(Debug)]
pub struct PathFilter {
    matcher: PathMatcher,
}

impl View for PathFilter {
    type V = PatternView;

    closed spec fn view(&self) -> PatternView {
        self.matcher@
    }
}

/// Whether the text holds `:` or `*`.
fn contains_marker(text: &str) -> (found: bool)
    ensures
        found == has_marker(text@),
{
    contains(text, ':') || contains(text, '*')
}

/// The pieces of a trimmed pattern that are not empty.
fn tokenize<'a>(path: &'a str) -> (out: Vec<&'a str>)
    ensures
        views_of(out@) == tokens(path@),
{
    let parts = split(path, '/');
    let ghost all = pieces(path@, '/');
    let mut out: Vec<&'a str> = Vec::new();
    let mut i: usize = 0;
    proof {
        reveal(Seq::filter);
        assert(all.take(0) =~= Seq::empty());
    }
    while i < parts.len()
        invariant
            i <= parts@.len(),
            views_of(parts@) == all,
            views_of(out@) =~= all.take(i as int).filter(is_token()),
        decreases parts.len() - i,
    {
        proof {
            reveal(Seq::filter);
            assert(all.take(i + 1).drop_last() =~= all.take(i as int));
            assert(all.take(i + 1).last() == parts@[i as int]@);
        }
        if !parts[i].is_empty() {
            out.push(parts[i]);
        }
        i += 1;
    }
    assert(all.take(i as int) =~= all);
    out
}

/// The fragment that a token stands for.
fn classify(token: &str, last: bool) -> (fragment: PathFragment)
    requires
        token@.len() > 0,
    ensures
        fragment@ == classified(token@, last),
{
    if token.get_char(0) == ':' {
        PathFragment::Param(to_lowercase(trim_start_matches(token, ':')))
    } else if last && same(token, "*") {
        proof {
            reveal_strlit("*");
            assert("*"@ =~= seq!['*']);
        }
        PathFragment::Glob
    } else {
        proof {
            reveal_strlit("*");
            assert("*"@ =~= seq!['*']);
        }
        PathFragment::Literal(to_lowercase(token))
    }
}

impl PathFilter {
    #[verifier::type_invariant]
    spec fn well_formed(&self) -> bool {
        self.matcher@.glob_only_last()
    }

    /// Compiles a route pattern. Every text is a pattern: one without `:` and
    /// `*` stands for itself, any other for a list of fragments.
    pub fn new(path: &str) -> (filter: PathFilter)
        ensures
            filter@ == compiled(path@),
    {
        let inner = trim_matches(path, '/');
        if !contains_marker(inner) {
            return PathFilter { matcher: PathMatcher::Literal(to_lowercase(inner)) };
        }
        let found = tokenize(inner);
        let ghost wanted = tokens(inner@);
        let count = found.len();
        let mut fragments: Vec<PathFragment> = Vec::new();
        let mut i: usize = 0;
        proof {
            assert forall|k: int| 0 <= k < wanted.len() implies (#[trigger] wanted[k]).len() > 0 by {
                pieces(inner@, '/').lemma_filter_pred(is_token(), k);
            }
        }
        while i < count
            invariant
                i <= count == found@.len(),
                views_of(found@) == wanted,
                forall|k: int| 0 <= k < wanted.len() ==> (#[trigger] wanted[k]).len() > 0,
                fragments@.len() == i,
                forall|k: int|
                    0 <= k < i ==> (#[trigger] fragments@[k])@ == classified(
                        wanted[k],
                        k == count - 1,
                    ),
            decreases count - i,
        {
            assert(found@[i as int]@ == wanted[i as int]);
            let fragment = classify(found[i], i == count - 1);
            fragments.push(fragment);
            i += 1;
        }
        let matcher = PathMatcher::FragmentList(fragments);
        proof {
            assert(fragment_views(fragments@) =~= Seq::new(
                wanted.len(),
                |i: int| classified(wanted[i], i == wanted.len() - 1),
            ));
            assert(matcher@ == compiled(path@));
        }
        PathFilter { matcher }
    }

    /// Holds a path against the pattern: the parameters it extracts where the
    /// path matches, nothing where it does not. A match is all or nothing.
    pub fn matches_path(&self, path: &str) -> (found: Option<UriParams>)
        ensures
            match found {
                Some(params) => matched(self@, path@) == Some(params@),
                None => matched(self@, path@).is_none(),
            },
    {
        proof {
            use_type_invariant(self);
        }
        let inner = trim_matches(path, '/');
        match &self.matcher {
            PathMatcher::Literal(literal) => {
                if eq_ignore_ascii_case(literal.as_str(), inner) {
                    Some(UriParams::new())
                } else {
                    None
                }
            },
            PathMatcher::FragmentList(fragments) => {
                let parts = split(inner, '/');
                let ghost wanted = fragment_views(fragments@);
                let ghost segments = pieces(inner@, '/');
                let ghost fixed = fixed_len(wanted);
                let mut params = UriParams::new();
                let mut at: usize = 0;
                assert(matched(self@, path@) == matched_segments(wanted, segments));
                loop
                    invariant
                        matched(self@, path@) == matched_segments(wanted, segments),
                        wanted == fragment_views(fragments@),
                        wanted.len() == fragments@.len(),
                        PatternView::FragmentList(wanted).glob_only_last(),
                        segments == views_of(parts@),
                        segments.len() == parts@.len(),
                        fixed == fixed_len(wanted),
                        at <= parts@.len(),
                        at > fixed ==> fixed < wanted.len(),
                        forall|i: int| 0 <= i < at && i < fixed ==> fits(#[trigger] wanted[i], segments[i]),
                        params@.params == captured(
                            wanted,
                            segments,
                            if at < fixed {
                                at as int
                            } else {
                                fixed
                            },
                        ).params,
                        params@.glob == if at > fixed {
                            Some(slash_joined(segments.subrange(fixed, at as int)))
                        } else {
                            None
                        },
                    decreases parts@.len() - at,
                {
                    if at < parts.len() {
                        let segment = parts[at];
                        assert(segment@ == segments[at as int]);
                        proof {
                            if at >= fixed {
                                let taken = segments.subrange(fixed, at as int);
                                let next = segments.subrange(fixed, at + 1);
                                assert(next.drop_last() =~= taken);
                                assert(next.last() == segment@);
                                assert(slash_joined(next) == slash_joined(taken) + seq!['/']
                                    + segment@);
                                if at == fixed {
                                    assert(slash_joined(taken) + seq!['/'] + segment@ =~= seq!['/']
                                        + segment@);
                                }
                            }
                        }
                        if at < fragments.len() {
                            assert(wanted[at as int] == fragments@[at as int]@);
                            match &fragments[at] {
                                PathFragment::Literal(literal) => {
                                    if !eq_ignore_ascii_case(literal.as_str(), segment) {
                                        return None;
                                    }
                                },
                                PathFragment::Param(name) => {
                                    if segment.is_empty() {
                                        return None;
                                    }
                                    params.insert(name.clone(), decode_segment(segment));
                                },
                                PathFragment::Glob => {
                                    params.append_glob(segment);
                                },
                            }
                        } else {
                            if params.glob().is_none() {
                                return None;
                            }
                            params.append_glob(segment);
                        }
                        at += 1;
                    } else {
                        if at < fragments.len() {
                            assert(wanted[at as int] == fragments@[at as int]@);
                            match &fragments[at] {
                                PathFragment::Glob => {},
                                _ => {
                                    assert(at < fixed);
                                    return None;
                                },
                            }
                        }
                        proof {
                            if at > fixed {
                                assert(segments.subrange(fixed, at as int) =~= segments.skip(fixed));
                            }
                        }
                        return Some(params);
                    }
                }
            },
        }
    }
}

impl PathFilter {
    /// Holds the path of a request against the pattern and, where it
    /// matches, records the extracted parameters in the context of the
    /// request. Says whether it matched; a path that does not match leaves
    /// the context as it was.
    pub fn matches(&self, ext: &mut Extensions, path: &str) -> (ok: bool)
        ensures
            ok == matched(self@, path@).is_some(),
            final(ext)@ == if ok {
                (ExtensionsView { uri_params: matched(self@, path@), ..old(ext)@ })
            } else {
                old(ext)@
            },
    {
        match self.matches_path(path) {
            None => false,
            Some(params) => {
                ext.uri_params = Some(params);
                true
            },
        }
    }
}

impl Clone for PathFragment {
    fn clone(&self) -> (copy: PathFragment)
        ensures
            copy@ == self@,
    {
        match self {
            PathFragment::Literal(text) => PathFragment::Literal(text.clone()),
            PathFragment::Param(name) => PathFragment::Param(name.clone()),
            PathFragment::Glob => PathFragment::Glob,
        }
    }
}

impl Clone for PathMatcher {
    fn clone(&self) -> (copy: PathMatcher)
        ensures
            copy@ == self@,
    {
        match self {
            PathMatcher::Literal(text) => PathMatcher::Literal(text.clone()),
            PathMatcher::FragmentList(fragments) => {
                let mut copied: Vec<PathFragment> = Vec::new();
                let mut at: usize = 0;
                while at < fragments.len()
                    invariant
                        at <= fragments@.len(),
                        copied@.len() == at,
                        forall|i: int| 0 <= i < at ==> (#[trigger] copied@[i])@ == fragments@[i]@,
                    decreases fragments.len() - at,
                {
                    copied.push(fragments[at].clone());
                    at += 1;
                }
                assert(fragment_views(copied@) =~= fragment_views(fragments@));
                PathMatcher::FragmentList(copied)
            },
        }
    }
}

impl Clone for PathFilter {
    fn clone(&self) -> (copy: PathFilter)
        ensures
            copy@ == self@,
    {
        proof {
            use_type_invariant(self);
        }
        PathFilter { matcher: self.matcher.clone() }
    }
}

} // verus!
