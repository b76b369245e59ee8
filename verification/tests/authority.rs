use request_gate::authority::{authorize_exact, authorize_filtered, ProxyAuthority, ProxyAuthoritySync};
use request_gate::context::{Extensions, ExtensionsView};
use request_gate::credentials::Basic;
use request_gate::username::{ProxyFilter, UsernameConfig};
use std::cell::Cell;

const HYPHEN: u32 = '-' as u32;

/// An authority that counts how often it is asked, and records its own name
/// as the user name where it accepts.
struct Probe {
    name: &'static str,
    accept: bool,
    asked: Cell<usize>,
}

impl Probe {
    fn new(name: &'static str, accept: bool) -> Self {
        Probe { name, accept, asked: Cell::new(0) }
    }
}

impl ProxyAuthoritySync<Basic, ()> for Probe {
    fn accepts(&self, _credentials: &Basic) -> bool {
        self.accept
    }

    fn granted(&self, ext: ExtensionsView, _credentials: &Basic) -> ExtensionsView {
        ext
    }

    fn authorized(&self, ext: &mut Extensions, credentials: &Basic) -> bool {
        self.asked.set(self.asked.get() + 1);
        if self.accept {
            ext.basic = Some(Basic::new(self.name, credentials.password()));
        }
        self.accept
    }
}

#[test]
fn basic_authorization() {
    let auth = Basic::new("Aladdin", "open sesame");
    let auths = vec![Basic::new("foo", "bar"), auth.clone()];
    let ext = ProxyAuthority::<_, ()>::authorized(&auths, auth.clone()).unwrap();
    let c: &Basic = ext.basic.as_ref().unwrap();
    assert_eq!(&auth, c);
}

#[test]
fn basic_authorization_with_filter_not_found() {
    let auth = Basic::new("john", "secret");
    let auths = vec![Basic::new("foo", "bar"), Basic::new("john", "secret")];

    let ext =
        ProxyAuthority::<_, UsernameConfig<HYPHEN>>::authorized(&auths, auth.clone()).unwrap();
    let c: &Basic = ext.basic.as_ref().unwrap();
    assert_eq!(&auth, c);

    assert!(ext.filter.is_none());
}

#[test]
fn basic_authorization_tuple() {
    let auths = vec![("foo", "bar"), ("Aladdin", "open sesame"), ("baz", "qux")];
    let auth = Basic::new("Aladdin", "open sesame");
    let ext = ProxyAuthority::<_, ()>::authorized(&auths, auth.clone()).unwrap();
    let c: &Basic = ext.basic.as_ref().unwrap();
    assert_eq!(&auth, c);
}

#[test]
fn basic_authorization_tuple_no_auth_username() {
    let auths = vec![("foo", "bar"), ("Aladdin", "open sesame"), ("baz", "qux")];
    let auth = Basic::new("bax", "qux");
    assert!(ProxyAuthority::<_, ()>::authorized(&auths, auth.clone()).is_none());
}

#[test]
fn basic_authorization_tuple_no_auth_password() {
    let auths = vec![("foo", "bar"), ("Aladdin", "open sesame"), ("baz", "qux")];
    let auth = Basic::new("baz", "quc");
    assert!(ProxyAuthority::<_, ()>::authorized(&auths, auth.clone()).is_none())
}

#[test]
fn basic_authorization_tuple_string() {
    let auths = vec![
        ("foo".to_owned(), "bar".to_owned()),
        ("Aladdin".to_owned(), "open sesame".to_owned()),
        ("baz".to_owned(), "qux".to_owned()),
    ];
    let auth = Basic::new("Aladdin", "open sesame");
    let ext = ProxyAuthority::<_, ()>::authorized(&auths, auth.clone()).unwrap();
    let c: &Basic = ext.basic.as_ref().unwrap();
    assert_eq!(&auth, c);
}

#[test]
fn username_with_country_directive_authorizes_with_metadata() {
    let auths = vec![Basic::new("foo", "bar"), Basic::new("john", "secret")];
    let ext = ProxyAuthority::<_, UsernameConfig<HYPHEN>>::authorized(
        &auths,
        Basic::new("john-country=us", "secret"),
    )
    .unwrap();
    assert_eq!(ext.basic.as_ref().unwrap(), &Basic::new("john", "secret"));
    let filter: &ProxyFilter = ext.filter.as_ref().unwrap();
    assert_eq!(filter.country, Some("us".to_owned()));
    assert!(!filter.datacenter && !filter.residential && !filter.mobile);
    assert!(ext.uri_params.is_none());

    let ext =
        ProxyAuthority::<_, UsernameConfig<HYPHEN>>::authorized(&auths, Basic::new("john", "secret"))
            .unwrap();
    assert_eq!(ext.basic.as_ref().unwrap(), &Basic::new("john", "secret"));
    assert!(ext.filter.is_none());
}

#[test]
fn other_delimiter_is_read_by_its_label() {
    let stored = ("john", "secret");
    let presented = Basic::new("john|cc=be,mobile", "secret");
    let ext = ProxyAuthority::<_, UsernameConfig<{ '|' as u32 }>>::authorized(&stored, presented)
        .unwrap();
    assert_eq!(ext.basic.as_ref().unwrap(), &Basic::new("john", "secret"));
    let filter = ext.filter.as_ref().unwrap();
    assert_eq!(filter.country.as_deref(), Some("be"));
    assert!(filter.mobile);
    let presented = Basic::new("john|cc=be,mobile", "secret");
    assert!(ProxyAuthority::<_, UsernameConfig<HYPHEN>>::authorized(&stored, presented).is_none());
    let presented = Basic::new("john|cc=be,mobile", "secret");
    assert!(ProxyAuthority::<_, ()>::authorized(&stored, presented).is_none());
}

#[test]
fn wrong_password_never_authorizes_under_a_filter() {
    let auths = vec![Basic::new("foo", "bar"), Basic::new("john", "secret")];
    for username in ["john", "john-country=us", "john-", "foo", "foo-mobile"] {
        for password in ["", "Secret", "secret ", "barr", "john"] {
            let presented = Basic::new(username, password);
            assert!(
                ProxyAuthority::<_, UsernameConfig<HYPHEN>>::authorized(&auths, presented).is_none(),
                "{} / {}",
                username,
                password
            );
        }
    }
    let owned = ("john".to_owned(), "secret".to_owned());
    assert!(ProxyAuthority::<_, UsernameConfig<HYPHEN>>::authorized(
        &owned,
        Basic::new("john-country=us", "secre")
    )
    .is_none());
    let borrowed = ("john", "secret");
    assert!(ProxyAuthority::<_, UsernameConfig<HYPHEN>>::authorized(
        &borrowed,
        Basic::new("john-country=us", "secre")
    )
    .is_none());
}

#[test]
fn wrong_plain_username_under_a_filter_is_refused() {
    let stored = Basic::new("john", "secret");
    for username in ["jo", "johnny-country=us", "-country=us", "John-country=us", "jo-hn"] {
        let mut ext = Extensions::new();
        let ok = ProxyAuthoritySync::<Basic, UsernameConfig<HYPHEN>>::authorized(
            &stored,
            &mut ext,
            &Basic::new(username, "secret"),
        );
        assert!(!ok, "{}", username);
        assert!(ext.basic.is_none() && ext.filter.is_none());
    }
}

#[test]
fn directives_that_set_nothing_leave_an_earlier_filter() {
    let stored = ("john".to_owned(), "secret".to_owned());
    let mut ext = Extensions::new();
    assert!(ProxyAuthoritySync::<Basic, UsernameConfig<HYPHEN>>::authorized(
        &stored,
        &mut ext,
        &Basic::new("john-country=us", "secret"),
    ));
    assert_eq!(ext.filter.as_ref().unwrap().country.as_deref(), Some("us"));
    assert!(ProxyAuthoritySync::<Basic, UsernameConfig<HYPHEN>>::authorized(
        &stored,
        &mut ext,
        &Basic::new("john-unknown", "secret"),
    ));
    assert_eq!(ext.filter.as_ref().unwrap().country.as_deref(), Some("us"));
    assert_eq!(ext.basic.as_ref().unwrap(), &Basic::new("john", "secret"));
    assert!(ProxyAuthoritySync::<Basic, UsernameConfig<HYPHEN>>::authorized(
        &stored,
        &mut ext,
        &Basic::new("john-mobile", "secret"),
    ));
    let filter = ext.filter.as_ref().unwrap();
    assert_eq!(filter.country, None);
    assert!(filter.mobile);
}

#[test]
fn exact_authority_is_case_sensitive() {
    let stored = Basic::new("John", "Secret");
    assert!(ProxyAuthority::<_, ()>::authorized(&stored, Basic::new("John", "Secret")).is_some());
    assert!(ProxyAuthority::<_, ()>::authorized(&stored, Basic::new("john", "Secret")).is_none());
    assert!(ProxyAuthority::<_, ()>::authorized(&stored, Basic::new("John", "secret")).is_none());
    assert!(ProxyAuthority::<_, ()>::authorized(&stored, Basic::new("John-x", "Secret")).is_none());
}

#[test]
fn refusal_leaves_the_context_as_it_was() {
    let mut ext = Extensions::new();
    ext.basic = Some(Basic::new("earlier", "one"));
    let stored = ("john", "secret");
    assert!(!ProxyAuthoritySync::<Basic, ()>::authorized(
        &stored,
        &mut ext,
        &Basic::new("john", "nope")
    ));
    assert_eq!(ext.basic.as_ref().unwrap(), &Basic::new("earlier", "one"));
    assert!(ProxyAuthoritySync::<Basic, ()>::authorized(
        &stored,
        &mut ext,
        &Basic::new("john", "secret")
    ));
    assert_eq!(ext.basic.as_ref().unwrap(), &Basic::new("john", "secret"));
}

#[test]
fn authorize_exact_and_filtered_on_plain_strings() {
    let mut ext = Extensions::new();
    assert!(authorize_exact("a", "b", &mut ext, &Basic::new("a", "b")));
    assert_eq!(ext.basic.as_ref().unwrap(), &Basic::new("a", "b"));
    assert!(!authorize_exact("a", "b", &mut ext, &Basic::new("a", "c")));
    assert!(!authorize_exact("a", "b", &mut ext, &Basic::new("c", "b")));
    let mut ext = Extensions::new();
    assert!(authorize_filtered("a", "b", HYPHEN, &mut ext, &Basic::new("a-residential", "b")));
    assert_eq!(ext.basic.as_ref().unwrap(), &Basic::new("a", "b"));
    assert!(ext.filter.as_ref().unwrap().residential);
    assert!(!authorize_filtered("a", "b", HYPHEN, &mut ext, &Basic::new("a-residential", "c")));
    assert!(authorize_filtered("a", "b", 0xD800, &mut ext, &Basic::new("a", "b")));
    assert!(!authorize_filtered("a", "b", 0xD800, &mut ext, &Basic::new("a-x", "b")));
}

#[test]
fn tuple_asks_every_element() {
    let probes = (Probe::new("first", true), Probe::new("second", true), Probe::new("third", true));
    let mut ext = Extensions::new();
    let ok = ProxyAuthoritySync::<Basic, ()>::authorized(&probes, &mut ext, &Basic::new("u", "p"));
    assert!(ok);
    assert_eq!(probes.0.asked.get(), 1);
    assert_eq!(probes.1.asked.get(), 1);
    assert_eq!(probes.2.asked.get(), 1);
    assert_eq!(ext.basic.as_ref().unwrap(), &Basic::new("third", "p"));

    let probes = (Probe::new("first", true), Probe::new("second", false));
    let mut ext = Extensions::new();
    assert!(ProxyAuthoritySync::<Basic, ()>::authorized(&probes, &mut ext, &Basic::new("u", "p")));
    assert_eq!(probes.0.asked.get(), 1);
    assert_eq!(probes.1.asked.get(), 1);
    assert_eq!(ext.basic.as_ref().unwrap(), &Basic::new("first", "p"));

    let probes = (
        Probe::new("a", false),
        Probe::new("b", true),
        Probe::new("c", false),
        Probe::new("d", true),
    );
    let mut ext = Extensions::new();
    assert!(ProxyAuthoritySync::<Basic, ()>::authorized(&probes, &mut ext, &Basic::new("u", "p")));
    assert_eq!(
        [probes.0.asked.get(), probes.1.asked.get(), probes.2.asked.get(), probes.3.asked.get()],
        [1, 1, 1, 1]
    );
    assert_eq!(ext.basic.as_ref().unwrap(), &Basic::new("d", "p"));

    let probes = (Probe::new("a", false), Probe::new("b", false), Probe::new("c", false));
    let mut ext = Extensions::new();
    assert!(!ProxyAuthoritySync::<Basic, ()>::authorized(&probes, &mut ext, &Basic::new("u", "p")));
    assert_eq!(probes.2.asked.get(), 1);
    assert!(ext.basic.is_none());

    let single = (Probe::new("only", true),);
    assert!(ProxyAuthority::<Basic, ()>::authorized(&single, Basic::new("u", "p")).is_some());
    assert_eq!(single.0.asked.get(), 1);
}

#[test]
fn list_stops_at_first_success() {
    let probes = vec![
        Probe::new("zero", false),
        Probe::new("first", true),
        Probe::new("second", true),
        Probe::new("third", true),
    ];
    let mut ext = Extensions::new();
    let ok = ProxyAuthoritySync::<Basic, ()>::authorized(&probes, &mut ext, &Basic::new("u", "p"));
    assert!(ok);
    assert_eq!(probes[0].asked.get(), 1);
    assert_eq!(probes[1].asked.get(), 1);
    assert_eq!(probes[2].asked.get(), 0);
    assert_eq!(probes[3].asked.get(), 0);
    assert_eq!(ext.basic.as_ref().unwrap(), &Basic::new("first", "p"));

    let none: Vec<Probe> = Vec::new();
    assert!(ProxyAuthority::<Basic, ()>::authorized(&none, Basic::new("u", "p")).is_none());
    let refusing = vec![Probe::new("a", false), Probe::new("b", false)];
    assert!(ProxyAuthority::<Basic, ()>::authorized(&refusing, Basic::new("u", "p")).is_none());
    assert_eq!(refusing[1].asked.get(), 1);
}

#[test]
fn tuples_and_lists_nest() {
    let nested = (vec![("a", "1"), ("b", "2")], vec![("c", "3")]);
    assert!(ProxyAuthority::<Basic, ()>::authorized(&nested, Basic::new("c", "3")).is_some());
    assert!(ProxyAuthority::<Basic, ()>::authorized(&nested, Basic::new("b", "2")).is_some());
    assert!(ProxyAuthority::<Basic, ()>::authorized(&nested, Basic::new("b", "3")).is_none());
}

#[test]
fn basic_accessors_and_equality() {
    let basic = Basic::new("Aladdin", "open sesame");
    assert_eq!(basic.username(), "Aladdin");
    assert_eq!(basic.password(), "open sesame");
    assert_eq!(basic, basic.clone());
    assert_ne!(basic, Basic::new("Aladdin", "open"));
    assert_ne!(basic, Basic::new("aladdin", "open sesame"));
}
