//! Authorities: stores of credentials that judge presented credentials and
//! record the identity they accept.

use vstd::prelude::*;
use vstd::string::*;
use crate::context::{Extensions, ExtensionsView};
use crate::credentials::{Basic, BasicView};
use crate::text::{has_code, lemma_first_index, same};
use crate::username::{lemma_plain_username, parse_for_code, parsed_username, UsernameConfig};

verus! {

/// An authority that judges credentials without waiting for anything.
///
/// `L` labels the way in which user names are read: `()` for user names taken
/// as they stand, [`UsernameConfig`] for user names that may carry directives.
///
/// `accepts` and `granted` say what `authorized` does; the combinators state
/// their own behaviour over them. An implementation outside verified code
/// writes them as ordinary functions, which nothing ever calls.
pub trait ProxyAuthoritySync<C, L> {
    /// Whether the authority accepts the credentials.
    spec fn accepts(&self, credentials: &C) -> bool;

    /// The facts of a request after the authority accepted the credentials,
    /// given the facts before.
    spec fn granted(&self, ext: ExtensionsView, credentials: &C) -> ExtensionsView;

    /// Judges the credentials. On acceptance the facts it yields are recorded
    /// in `ext`; on refusal `ext` is left as it was.
    fn authorized(&self, ext: &mut Extensions, credentials: &C) -> (ok: bool)
        ensures
            ok == self.accepts(credentials),
            final(ext)@ == if ok {
                self.granted(old(ext)@, credentials)
            } else {
                old(ext)@
            },
    ;
}

/// An authority that judges credentials and answers with the facts of its
/// own: the facts of an acceptance, or nothing.
pub trait ProxyAuthority<C, L> {
    /// The facts that the authority answers with, if it accepts.
    spec fn verdict(&self, credentials: &C) -> Option<ExtensionsView>;

    /// Judges the credentials.
    fn authorized(&self, credentials: C) -> (facts: Option<Extensions>)
        ensures
            match facts {
                Some(ext) => self.verdict(&credentials) == Some(ext@),
                None => self.verdict(&credentials).is_none(),
            },
    ;
}

impl<A, C, L> ProxyAuthority<C, L> for A where A: ProxyAuthoritySync<C, L> {
    open spec fn verdict(&self, credentials: &C) -> Option<ExtensionsView> {
        if self.accepts(credentials) {
            Some(self.granted(ExtensionsView::empty(), credentials))
        } else {
            None
        }
    }

    fn authorized(&self, credentials: C) -> (facts: Option<Extensions>) {
        let mut ext = Extensions::new();
        if ProxyAuthoritySync::authorized(self, &mut ext, &credentials) {
            Some(ext)
        } else {
            None
        }
    }
}

/// Whether the presented credentials are the stored pair, letter for letter.
pub open spec fn exact_accepts(
    username: Seq<char>,
    password: Seq<char>,
    presented: BasicView,
) -> bool {
    presented.username == username && presented.password == password
}

/// The facts after the stored pair was accepted as it stands.
pub open spec fn exact_granted(
    username: Seq<char>,
    password: Seq<char>,
    ext: ExtensionsView,
) -> ExtensionsView {
    ExtensionsView { basic: Some(BasicView { username, password }), ..ext }
}

/// Whether the presented credentials are accepted for the stored pair when
/// the user name may carry directives after the delimiter with the code point
/// `code`. The password must be the stored one. A user name without the
/// delimiter must be the stored one; of one with it, the part before the
/// delimiter must be.
pub open spec fn filtered_accepts(
    username: Seq<char>,
    password: Seq<char>,
    code: u32,
    presented: BasicView,
) -> bool {
    &&& presented.password == password
    &&& if has_code(presented.username, code) {
        parsed_username(presented.username, code).0 == username
    } else {
        presented.username == username
    }
}

/// The facts after such an acceptance: the plain user name with the presented
/// password as the identity, and the filter of the user name where it holds
/// one.
pub open spec fn filtered_granted(
    code: u32,
    ext: ExtensionsView,
    presented: BasicView,
) -> ExtensionsView {
    let parsed = parsed_username(presented.username, code);
    ExtensionsView {
        basic: Some(BasicView { username: parsed.0, password: presented.password }),
        filter: match parsed.1 {
            Some(filter) => Some(filter),
            None => ext.filter,
        },
        ..ext
    }
}

/// Judges credentials against a stored pair, letter for letter.
pub fn authorize_exact(
    username: &str,
    password: &str,
    ext: &mut Extensions,
    credentials: &Basic,
) -> (ok: bool)
    ensures
        ok == exact_accepts(username@, password@, credentials@),
        final(ext)@ == if ok {
            exact_granted(username@, password@, old(ext)@)
        } else {
            old(ext)@
        },
{
    if same(username, credentials.username()) && same(password, credentials.password()) {
        ext.basic = Some(Basic::new(username, password));
        true
    } else {
        false
    }
}

/// Judges credentials against a stored pair, reading the presented user name
/// for directives after the delimiter with the code point `code`.
pub fn authorize_filtered(
    username: &str,
    password: &str,
    code: u32,
    ext: &mut Extensions,
    credentials: &Basic,
) -> (ok: bool)
    ensures
        ok == filtered_accepts(username@, password@, code, credentials@),
        final(ext)@ == if ok {
            filtered_granted(code, old(ext)@, credentials@)
        } else {
            old(ext)@
        },
{
    if !same(credentials.password(), password) {
        return false;
    }
    proof {
        lemma_first_index(credentials@.username, code);
    }
    let (plain, filter) = parse_for_code(credentials.username(), code);
    if !same(plain.as_str(), username) {
        return false;
    }
    if let Some(filter) = filter {
        ext.filter = Some(filter);
    }
    ext.basic = Some(Basic::new(plain.as_str(), credentials.password()));
    true
}

impl ProxyAuthoritySync<Basic, ()> for Basic {
    open spec fn accepts(&self, credentials: &Basic) -> bool {
        exact_accepts(self@.username, self@.password, credentials@)
    }

    open spec fn granted(&self, ext: ExtensionsView, credentials: &Basic) -> ExtensionsView {
        exact_granted(self@.username, self@.password, ext)
    }

    fn authorized(&self, ext: &mut Extensions, credentials: &Basic) -> (ok: bool) {
        authorize_exact(self.username(), self.password(), ext, credentials)
    }
}

impl<const C: u32> ProxyAuthoritySync<Basic, UsernameConfig<C>> for Basic {
    open spec fn accepts(&self, credentials: &Basic) -> bool {
        filtered_accepts(self@.username, self@.password, C, credentials@)
    }

    open spec fn granted(&self, ext: ExtensionsView, credentials: &Basic) -> ExtensionsView {
        filtered_granted(C, ext, credentials@)
    }

    fn authorized(&self, ext: &mut Extensions, credentials: &Basic) -> (ok: bool) {
        authorize_filtered(self.username(), self.password(), C, ext, credentials)
    }
}

impl ProxyAuthoritySync<Basic, ()> for (&'static str, &'static str) {
    open spec fn accepts(&self, credentials: &Basic) -> bool {
        exact_accepts(self.0@, self.1@, credentials@)
    }

    open spec fn granted(&self, ext: ExtensionsView, credentials: &Basic) -> ExtensionsView {
        exact_granted(self.0@, self.1@, ext)
    }

    fn authorized(&self, ext: &mut Extensions, credentials: &Basic) -> (ok: bool) {
        authorize_exact(self.0, self.1, ext, credentials)
    }
}

impl<const C: u32> ProxyAuthoritySync<Basic, UsernameConfig<C>> for (&'static str, &'static str) {
    open spec fn accepts(&self, credentials: &Basic) -> bool {
        filtered_accepts(self.0@, self.1@, C, credentials@)
    }

    open spec fn granted(&self, ext: ExtensionsView, credentials: &Basic) -> ExtensionsView {
        filtered_granted(C, ext, credentials@)
    }

    fn authorized(&self, ext: &mut Extensions, credentials: &Basic) -> (ok: bool) {
        authorize_filtered(self.0, self.1, C, ext, credentials)
    }
}

impl ProxyAuthoritySync<Basic, ()> for (String, String) {
    open spec fn accepts(&self, credentials: &Basic) -> bool {
        exact_accepts(self.0@, self.1@, credentials@)
    }

    open spec fn granted(&self, ext: ExtensionsView, credentials: &Basic) -> ExtensionsView {
        exact_granted(self.0@, self.1@, ext)
    }

    fn authorized(&self, ext: &mut Extensions, credentials: &Basic) -> (ok: bool) {
        authorize_exact(self.0.as_str(), self.1.as_str(), ext, credentials)
    }
}

impl<const C: u32> ProxyAuthoritySync<Basic, UsernameConfig<C>> for (String, String) {
    open spec fn accepts(&self, credentials: &Basic) -> bool {
        filtered_accepts(self.0@, self.1@, C, credentials@)
    }

    open spec fn granted(&self, ext: ExtensionsView, credentials: &Basic) -> ExtensionsView {
        filtered_granted(C, ext, credentials@)
    }

    fn authorized(&self, ext: &mut Extensions, credentials: &Basic) -> (ok: bool) {
        authorize_filtered(self.0.as_str(), self.1.as_str(), C, ext, credentials)
    }
}

/// The facts after one more authority had its turn: what it grants where it
/// accepts, the facts as they were where it does not.
pub open spec fn after_turn<C, L, A: ProxyAuthoritySync<C, L>>(
    authority: &A,
    ext: ExtensionsView,
    credentials: &C,
) -> ExtensionsView {
    if authority.accepts(credentials) {
        authority.granted(ext, credentials)
    } else {
        ext
    }
}

impl<C, L, T1> ProxyAuthoritySync<C, L> for (T1,) where T1: ProxyAuthoritySync<C, L> {
    open spec fn accepts(&self, credentials: &C) -> bool {
        self.0.accepts(credentials)
    }

    open spec fn granted(&self, ext: ExtensionsView, credentials: &C) -> ExtensionsView {
        after_turn::<C, L, T1>(&self.0, ext, credentials)
    }

    fn authorized(&self, ext: &mut Extensions, credentials: &C) -> (ok: bool) {
        self.0.authorized(ext, credentials)
    }
}

impl<C, L, T1, T2> ProxyAuthoritySync<C, L> for (T1, T2) where
    T1: ProxyAuthoritySync<C, L>,
    T2: ProxyAuthoritySync<C, L>,
{
    open spec fn accepts(&self, credentials: &C) -> bool {
        self.0.accepts(credentials) || self.1.accepts(credentials)
    }

    open spec fn granted(&self, ext: ExtensionsView, credentials: &C) -> ExtensionsView {
        let ext = after_turn::<C, L, T1>(&self.0, ext, credentials);
        after_turn::<C, L, T2>(&self.1, ext, credentials)
    }

    fn authorized(&self, ext: &mut Extensions, credentials: &C) -> (ok: bool) {
        let first = self.0.authorized(ext, credentials);
        let second = self.1.authorized(ext, credentials);
        first || second
    }
}

impl<C, L, T1, T2, T3> ProxyAuthoritySync<C, L> for (T1, T2, T3) where
    T1: ProxyAuthoritySync<C, L>,
    T2: ProxyAuthoritySync<C, L>,
    T3: ProxyAuthoritySync<C, L>,
{
    open spec fn accepts(&self, credentials: &C) -> bool {
        self.0.accepts(credentials) || self.1.accepts(credentials) || self.2.accepts(credentials)
    }

    open spec fn granted(&self, ext: ExtensionsView, credentials: &C) -> ExtensionsView {
        let ext = after_turn::<C, L, T1>(&self.0, ext, credentials);
        let ext = after_turn::<C, L, T2>(&self.1, ext, credentials);
        after_turn::<C, L, T3>(&self.2, ext, credentials)
    }

    fn authorized(&self, ext: &mut Extensions, credentials: &C) -> (ok: bool) {
        let first = self.0.authorized(ext, credentials);
        let second = self.1.authorized(ext, credentials);
        let third = self.2.authorized(ext, credentials);
        first || second || third
    }
}

impl<C, L, T1, T2, T3, T4> ProxyAuthoritySync<C, L> for (T1, T2, T3, T4) where
    T1: ProxyAuthoritySync<C, L>,
    T2: ProxyAuthoritySync<C, L>,
    T3: ProxyAuthoritySync<C, L>,
    T4: ProxyAuthoritySync<C, L>,
{
    open spec fn accepts(&self, credentials: &C) -> bool {
        self.0.accepts(credentials) || self.1.accepts(credentials) || self.2.accepts(credentials)
            || self.3.accepts(credentials)
    }

    open spec fn granted(&self, ext: ExtensionsView, credentials: &C) -> ExtensionsView {
        let ext = after_turn::<C, L, T1>(&self.0, ext, credentials);
        let ext = after_turn::<C, L, T2>(&self.1, ext, credentials);
        let ext = after_turn::<C, L, T3>(&self.2, ext, credentials);
        after_turn::<C, L, T4>(&self.3, ext, credentials)
    }

    fn authorized(&self, ext: &mut Extensions, credentials: &C) -> (ok: bool) {
        let first = self.0.authorized(ext, credentials);
        let second = self.1.authorized(ext, credentials);
        let third = self.2.authorized(ext, credentials);
        let fourth = self.3.authorized(ext, credentials);
        first || second || third || fourth
    }
}

/// A tuple gives every one of its authorities its turn, in order, whether or
/// not an earlier one accepted: it accepts where any of them does, and where
/// all of three accept, the facts of each are recorded on top of those of the
/// ones before it.
pub proof fn lemma_tuple_hears_all<C, L, T1, T2, T3>(
    authorities: (T1, T2, T3),
    ext: ExtensionsView,
    credentials: &C,
) where T1: ProxyAuthoritySync<C, L>, T2: ProxyAuthoritySync<C, L>, T3: ProxyAuthoritySync<C, L>
    ensures
        authorities.accepts(credentials) == (authorities.0.accepts(credentials)
            || authorities.1.accepts(credentials) || authorities.2.accepts(credentials)),
        authorities.granted(ext, credentials) == after_turn::<C, L, T3>(
            &authorities.2,
            after_turn::<C, L, T2>(
                &authorities.1,
                after_turn::<C, L, T1>(&authorities.0, ext, credentials),
                credentials,
            ),
            credentials,
        ),
        authorities.0.accepts(credentials) && authorities.1.accepts(credentials)
            && authorities.2.accepts(credentials) ==> authorities.granted(ext, credentials)
            == authorities.2.granted(
            authorities.1.granted(authorities.0.granted(ext, credentials), credentials),
            credentials,
        ),
{
}

/// A list stops at the first of its authorities that accepts: it accepts
/// where one of them does, and the facts recorded are those of the first such
/// one alone, whatever the later ones would have granted.
pub proof fn lemma_list_stops_at_first<C, L, T: ProxyAuthoritySync<C, L>>(
    authorities: Vec<T>,
    ext: ExtensionsView,
    credentials: &C,
    at: int,
)
    requires
        0 <= at < authorities@.len(),
        authorities@[at].accepts(credentials),
        forall|i: int| 0 <= i < at ==> !(#[trigger] authorities@[i]).accepts(credentials),
    ensures
        authorities.accepts(credentials),
        authorities.granted(ext, credentials) == authorities@[at].granted(ext, credentials),
{
    lemma_first_accepting_is::<C, L, T>(authorities@, credentials, at);
}

/// A list in which no authority accepts does not accept.
pub proof fn lemma_list_of_refusals<C, L, T: ProxyAuthoritySync<C, L>>(
    authorities: Vec<T>,
    credentials: &C,
)
    requires
        forall|i: int|
            0 <= i < authorities@.len() ==> !(#[trigger] authorities@[i]).accepts(credentials),
    ensures
        !authorities.accepts(credentials),
{
    lemma_first_accepting::<C, L, T>(authorities@, credentials);
}

/// On a user name without the delimiter, a stored pair that reads user names
/// for directives judges as one that takes them as they stand: it accepts the
/// same credentials and records the same identity, and no filter.
pub proof fn lemma_without_delimiter_exact(
    username: Seq<char>,
    password: Seq<char>,
    code: u32,
    ext: ExtensionsView,
    presented: BasicView,
)
    requires
        !has_code(presented.username, code),
    ensures
        filtered_accepts(username, password, code, presented) == exact_accepts(
            username,
            password,
            presented,
        ),
        exact_accepts(username, password, presented) ==> filtered_granted(code, ext, presented)
            == exact_granted(username, password, ext),
{
    lemma_plain_username(presented.username, code);
}

/// A stored pair that reads user names for directives refuses every password
/// but its own, whatever the user name holds.
pub proof fn lemma_wrong_password_refused(
    username: Seq<char>,
    password: Seq<char>,
    code: u32,
    presented: BasicView,
)
    requires
        presented.password != password,
    ensures
        !filtered_accepts(username, password, code, presented),
{
}

/// A list of stored credentials that reads user names for directives refuses
/// a password that none of them has, whatever the user name holds.
pub proof fn lemma_wrong_password_refused_by_list<const C: u32>(
    stored: Vec<Basic>,
    presented: Basic,
)
    requires
        forall|i: int|
            0 <= i < stored@.len() ==> (#[trigger] stored@[i])@.password != presented@.password,
    ensures
        !ProxyAuthoritySync::<Basic, UsernameConfig<C>>::accepts(&stored, &presented),
        ProxyAuthority::<Basic, UsernameConfig<C>>::verdict(&stored, &presented).is_none(),
{
    assert forall|i: int| 0 <= i < stored@.len() implies !ProxyAuthoritySync::<
        Basic,
        UsernameConfig<C>,
    >::accepts(#[trigger] &stored@[i], &presented) by {
        lemma_wrong_password_refused(
            stored@[i]@.username,
            stored@[i]@.password,
            C,
            presented@,
        );
    }
    lemma_first_accepting::<Basic, UsernameConfig<C>, Basic>(stored@, &presented);
}

/// The number of authorities before the first one that accepts the
/// credentials; the number of all of them where none does.
pub open spec fn first_accepting<C, L, T: ProxyAuthoritySync<C, L>>(
    authorities: Seq<T>,
    credentials: &C,
) -> nat
    decreases authorities.len(),
{
    if authorities.len() == 0 || authorities.first().accepts(credentials) {
        0
    } else {
        1 + first_accepting::<C, L, T>(authorities.drop_first(), credentials)
    }
}

/// `first_accepting` is the least index of an authority that accepts.
pub proof fn lemma_first_accepting<C, L, T: ProxyAuthoritySync<C, L>>(
    authorities: Seq<T>,
    credentials: &C,
)
    ensures
        first_accepting::<C, L, T>(authorities, credentials) <= authorities.len(),
        forall|i: int|
            0 <= i < first_accepting::<C, L, T>(authorities, credentials) ==> !(
            #[trigger] authorities[i]).accepts(credentials),
        first_accepting::<C, L, T>(authorities, credentials) < authorities.len()
            ==> authorities[first_accepting::<C, L, T>(authorities, credentials) as int].accepts(
            credentials,
        ),
    decreases authorities.len(),
{
    if authorities.len() == 0 || authorities.first().accepts(credentials) {
    } else {
        let rest = authorities.drop_first();
        lemma_first_accepting::<C, L, T>(rest, credentials);
        assert forall|i: int|
            0 <= i < first_accepting::<C, L, T>(authorities, credentials) implies !(
        #[trigger] authorities[i]).accepts(credentials) by {
            if i > 0 {
                assert(authorities[i] == rest[i - 1]);
            }
        }
        let at = first_accepting::<C, L, T>(rest, credentials) as int;
        if at < rest.len() {
            assert(authorities[at + 1] == rest[at]);
        }
    }
}

/// An index whose authority accepts, with none before it that does, is the
/// first accepting one.
pub proof fn lemma_first_accepting_is<C, L, T: ProxyAuthoritySync<C, L>>(
    authorities: Seq<T>,
    credentials: &C,
    at: int,
)
    requires
        0 <= at <= authorities.len(),
        forall|i: int| 0 <= i < at ==> !(#[trigger] authorities[i]).accepts(credentials),
        at < authorities.len() ==> authorities[at].accepts(credentials),
    ensures
        first_accepting::<C, L, T>(authorities, credentials) == at,
{
    lemma_first_accepting::<C, L, T>(authorities, credentials);
}

impl<C, L, T> ProxyAuthoritySync<C, L> for Vec<T> where T: ProxyAuthoritySync<C, L> {
    open spec fn accepts(&self, credentials: &C) -> bool {
        first_accepting::<C, L, T>(self@, credentials) < self@.len()
    }

    open spec fn granted(&self, ext: ExtensionsView, credentials: &C) -> ExtensionsView {
        self@[first_accepting::<C, L, T>(self@, credentials) as int].granted(ext, credentials)
    }

    fn authorized(&self, ext: &mut Extensions, credentials: &C) -> (ok: bool) {
        let mut at: usize = 0;
        while at < self.len()
            invariant
                at <= self@.len(),
                ext@ == old(ext)@,
                forall|i: int| 0 <= i < at ==> !(#[trigger] self@[i]).accepts(credentials),
            decreases self.len() - at,
        {
            if self[at].authorized(ext, credentials) {
                proof {
                    lemma_first_accepting_is::<C, L, T>(self@, credentials, at as int);
                }
                return true;
            }
            at += 1;
        }
        proof {
            lemma_first_accepting_is::<C, L, T>(self@, credentials, at as int);
        }
        false
    }
}

} // verus!
