//! The parameters that a path match extracts.

use vstd::prelude::*;
use vstd::string::*;
use crate::text::same;

verus! {

/// What went wrong when parameters were projected into a typed value.
#[derive(Debug)]
pub enum ErrorKind {
    /// No named parameter was captured, because the pattern declares none.
    NoParams,
    /// The value of a parameter does not convert into its field.
    InvalidField { name: String, reason: String },
    /// The target cannot be built from named string values.
    Unsupported(String),
}

/// The error of projecting [`UriParams`] into a typed value.
#[derive(Debug)]
pub struct UriParamsDeserializeError {
    pub kind: ErrorKind,
}

impl UriParamsDeserializeError {
    /// The error of a projection that found no named parameters to project.
    pub fn no_params() -> (error: UriParamsDeserializeError)
        ensures
            error.kind is NoParams,
    {
        UriParamsDeserializeError { kind: ErrorKind::NoParams }
    }
}

/// The parameters of one successful match, as mathematical values.
pub struct UriParamsView {
    /// The named parameters; absent until the first one is recorded.
    pub params: Option<Map<Seq<char>, Seq<char>>>,
    /// The text that the trailing wildcard captured, if it captured any.
    pub glob: Option<Seq<char>>,
}

impl UriParamsView {
    /// No parameter and no wildcard capture.
    pub open spec fn empty() -> UriParamsView {
        UriParamsView { params: None, glob: None }
    }

    /// The parameters after `name` was given `value`.
    pub open spec fn with_param(self, name: Seq<char>, value: Seq<char>) -> UriParamsView {
        UriParamsView {
            params: Some(
                match self.params {
                    Some(known) => known.insert(name, value),
                    None => Map::empty().insert(name, value),
                },
            ),
            glob: self.glob,
        }
    }

    /// The parameters after the wildcard took one more segment: a slash and
    /// the segment are added to what it holds.
    pub open spec fn with_glob_segment(self, segment: Seq<char>) -> UriParamsView {
        UriParamsView {
            params: self.params,
            glob: Some(
                match self.glob {
                    Some(text) => text + seq!['/'] + segment,
                    None => seq!['/'] + segment,
                },
            ),
        }
    }
}

/// The map that a list of entries stands for, a later entry replacing an
/// earlier one of the same name.
pub open spec fn entries_map(entries: Seq<(String, String)>) -> Map<Seq<char>, Seq<char>>
    decreases entries.len(),
{
    if entries.len() == 0 {
        Map::empty()
    } else {
        entries_map(entries.drop_last()).insert(entries.last().0@, entries.last().1@)
    }
}

/// Whether no name occurs twice among the entries.
pub open spec fn distinct_names(entries: Seq<(String, String)>) -> bool {
    forall|i: int, j: int|
        0 <= i < j < entries.len() ==> (#[trigger] entries[i]).0@ != (#[trigger] entries[j]).0@
}

/// A name that no entry has is no key of the map.
pub proof fn lemma_absent_name(entries: Seq<(String, String)>, name: Seq<char>)
    requires
        forall|i: int| 0 <= i < entries.len() ==> (#[trigger] entries[i]).0@ != name,
    ensures
        !entries_map(entries).contains_key(name),
    decreases entries.len(),
{
    if entries.len() > 0 {
        lemma_absent_name(entries.drop_last(), name);
    }
}

/// Among distinct names, the map gives each name the value of its entry.
pub proof fn lemma_entry_value(entries: Seq<(String, String)>, at: int)
    requires
        distinct_names(entries),
        0 <= at < entries.len(),
    ensures
        entries_map(entries).contains_key(entries[at].0@),
        entries_map(entries)[entries[at].0@] == entries[at].1@,
    decreases entries.len(),
{
    if at < entries.len() - 1 {
        let front = entries.drop_last();
        assert(front[at] == entries[at]);
        assert(distinct_names(front)) by {
            assert forall|i: int, j: int| 0 <= i < j < front.len() implies (#[trigger] front[i]).0@
                != (#[trigger] front[j]).0@ by {
                assert(front[i] == entries[i] && front[j] == entries[j]);
            }
        }
        lemma_entry_value(front, at);
    }
}

/// Among distinct names, replacing the entry of a name is an insertion into
/// the map.
pub proof fn lemma_replace_entry(entries: Seq<(String, String)>, at: int, entry: (String, String))
    requires
        distinct_names(entries),
        0 <= at < entries.len(),
        entries[at].0@ == entry.0@,
    ensures
        distinct_names(entries.update(at, entry)),
        entries_map(entries.update(at, entry)) =~= entries_map(entries).insert(entry.0@, entry.1@),
    decreases entries.len(),
{
    let changed = entries.update(at, entry);
    assert(distinct_names(changed)) by {
        assert forall|i: int, j: int| 0 <= i < j < changed.len() implies (#[trigger] changed[i]).0@
            != (#[trigger] changed[j]).0@ by {
            assert(changed[i].0@ == entries[i].0@ && changed[j].0@ == entries[j].0@);
        }
    }
    let front = entries.drop_last();
    assert(distinct_names(front)) by {
        assert forall|i: int, j: int| 0 <= i < j < front.len() implies (#[trigger] front[i]).0@
            != (#[trigger] front[j]).0@ by {
            assert(front[i] == entries[i] && front[j] == entries[j]);
        }
    }
    if at == entries.len() - 1 {
        assert(changed.drop_last() =~= front);
    } else {
        lemma_replace_entry(front, at, entry);
        assert(changed.drop_last() =~= front.update(at, entry));
        assert(changed.last() == entries.last());
        assert(entries.last().0@ != entry.0@);
    }
}

/// The parameters recorded in the request context when a path filter matched
/// the request.
#[derive(Debug)]
pub struct UriParams {
    params: Option<Vec<(String, String)>>,
    glob: Option<String>,
}

impl View for UriParams {
    type V = UriParamsView;

    closed spec fn view(&self) -> UriParamsView {
        UriParamsView {
            params: match self.params {
                Some(entries) => Some(entries_map(entries@)),
                None => None,
            },
            glob: match self.glob {
                Some(text) => Some(text@),
                None => None,
            },
        }
    }
}

impl UriParams {
    #[verifier::type_invariant]
    spec fn distinct(&self) -> bool {
        match self.params {
            Some(entries) => distinct_names(entries@),
            None => true,
        }
    }

    /// Parameters with nothing recorded.
    pub fn new() -> (params: UriParams)
        ensures
            params@ == UriParamsView::empty(),
    {
        UriParams { params: None, glob: None }
    }

    /// Gives `name` the value `value`, in place of any value it had.
    pub fn insert(&mut self, name: String, value: String)
        ensures
            final(self)@ == old(self)@.with_param(name@, value@),
    {
        proof {
            use_type_invariant(&*self);
        }
        let mut taken: Option<Vec<(String, String)>> = None;
        core::mem::swap(&mut self.params, &mut taken);
        let mut entries = match taken {
            Some(entries) => entries,
            None => Vec::new(),
        };
        let ghost before = entries@;
        let mut at: usize = 0;
        while at < entries.len() && !(entries[at].0 == name)
            invariant
                at <= entries@.len(),
                entries@ == before,
                forall|i: int| 0 <= i < at ==> (#[trigger] entries@[i]).0@ != name@,
            decreases entries.len() - at,
        {
            at += 1;
        }
        let ghost entry = (name, value);
        if at < entries.len() {
            entries.set(at, (name, value));
            proof {
                lemma_replace_entry(before, at as int, entry);
            }
        } else {
            entries.push((name, value));
            proof {
                assert(entries@.drop_last() =~= before);
                lemma_absent_name(before, name@);
            }
        }
        self.params = Some(entries);
    }

    /// The value of the parameter `name`, if the match recorded one.
    pub fn get(&self, name: &str) -> (value: Option<&str>)
        ensures
            match value {
                Some(text) => self@.params.is_some() && self@.params.unwrap().contains_key(name@)
                    && text@ == self@.params.unwrap()[name@],
                None => self@.params.is_none() || !self@.params.unwrap().contains_key(name@),
            },
    {
        proof {
            use_type_invariant(self);
        }
        match &self.params {
            None => None,
            Some(entries) => {
                let mut at: usize = 0;
                while at < entries.len()
                    invariant
                        at <= entries@.len(),
                        self.params == Some(*entries),
                        distinct_names(entries@),
                        forall|i: int| 0 <= i < at ==> (#[trigger] entries@[i]).0@ != name@,
                    decreases entries.len() - at,
                {
                    if same(entries[at].0.as_str(), name) {
                        proof {
                            lemma_entry_value(entries@, at as int);
                        }
                        return Some(entries[at].1.as_str());
                    }
                    at += 1;
                }
                proof {
                    lemma_absent_name(entries@, name@);
                }
                None
            },
        }
    }

    /// The named parameters as a list of names and values, for a projection
    /// into a typed value: each name once, in no particular order. Parameters
    /// that never recorded a name have nothing to project, which is an error;
    /// this is the case exactly when the pattern declares no parameter.
    pub fn entries(&self) -> (listed: Result<Vec<(String, String)>, UriParamsDeserializeError>)
        ensures
            match listed {
                Ok(entries) => distinct_names(entries@) && self@.params == Some(
                    entries_map(entries@),
                ),
                Err(error) => self@.params.is_none() && error.kind is NoParams,
            },
    {
        proof {
            use_type_invariant(self);
        }
        match &self.params {
            None => Err(UriParamsDeserializeError::no_params()),
            Some(entries) => Ok(copy_entries(entries)),
        }
    }

    /// Adds a slash and `value` to what the trailing wildcard holds.
    pub fn append_glob(&mut self, value: &str)
        ensures
            final(self)@ == old(self)@.with_glob_segment(value@),
    {
        proof {
            use_type_invariant(&*self);
        }
        let mut taken: Option<String> = None;
        core::mem::swap(&mut self.glob, &mut taken);
        let mut text = match taken {
            Some(text) => text,
            None => String::new(),
        };
        text.append("/");
        text.append(value);
        proof {
            reveal_strlit("/");
            assert("/"@ =~= seq!['/']);
        }
        self.glob = Some(text);
    }

    /// The text that the trailing wildcard of the pattern captured, if it
    /// captured any.
    pub fn glob(&self) -> (text: Option<&str>)
        ensures
            match text {
                Some(text) => self@.glob == Some(text@),
                None => self@.glob.is_none(),
            },
    {
        match &self.glob {
            Some(text) => Some(text.as_str()),
            None => None,
        }
    }
}

/// A copy of a list of entries.
fn copy_entries(entries: &Vec<(String, String)>) -> (copied: Vec<(String, String)>)
    ensures
        copied@ == entries@,
{
    let mut copied: Vec<(String, String)> = Vec::new();
    let mut at: usize = 0;
    while at < entries.len()
        invariant
            at <= entries@.len(),
            copied@ == entries@.take(at as int),
        decreases entries.len() - at,
    {
        copied.push((entries[at].0.clone(), entries[at].1.clone()));
        assert(copied@ =~= entries@.take(at + 1));
        at += 1;
    }
    assert(copied@ =~= entries@);
    copied
}

impl Default for UriParams {
    fn default() -> (params: UriParams)
        ensures
            params@ == UriParamsView::empty(),
    {
        UriParams::new()
    }
}

impl Clone for UriParams {
    fn clone(&self) -> (copy: UriParams)
        ensures
            copy@ == self@,
    {
        proof {
            use_type_invariant(self);
        }
        let params = match &self.params {
            None => None,
            Some(entries) => Some(copy_entries(entries)),
        };
        let glob = match &self.glob {
            None => None,
            Some(text) => Some(text.clone()),
        };
        UriParams { params, glob }
    }
}

} // verus!
