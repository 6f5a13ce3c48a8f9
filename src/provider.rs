use vstd::prelude::*;

verus! {

use vstd::std_specs::cmp::PartialEqSpec;
use crate::config::{ATTRIBUTES_VALUE, DEFAULT_VALUE, DISPLAY_NAME_VALUE, ROOT_KEY, VERSION_VALUE};
use crate::error::Error;
use crate::registry::{encode, Data, DataView};
use crate::store::{
    find_node, lookup_value, names_match, put_value, same_name, with_path, with_values, Key,
    NodeView, RawView, Store, store_wf, lemma_find_node_found, lemma_find_with_values, lemma_with_path_has,
};
use crate::text::{to_upper, upper_of};
use crate::version::{parse_version, version_text, Version};
use crate::{attribute_bits, dependents_of, ignore_view, provider_path, records, root_path};
use crate::{Attributes, Scope};

/// A provider key with no other metadata. Two dependencies are equal when
/// their keys are the same name regardless of letter case.
#[derive(Debug, Clone)]
pub struct Dependency {
    /// Provider key that identifies the dependency.
    pub key: String,
}

impl Dependency {
    /// A dependency on the given provider key.
    pub fn new(provider_key: &str) -> (r: Dependency)
        ensures
            r.key@ == provider_key@,
    {
        Dependency { key: provider_key.to_owned() }
    }
}

impl PartialEq for Dependency {
    fn eq(&self, other: &Dependency) -> (r: bool) {
        names_match(self.key.as_str(), other.key.as_str())
    }
}

impl vstd::std_specs::cmp::PartialEqSpecImpl for Dependency {
    open spec fn obeys_eq_spec() -> bool {
        true
    }

    open spec fn eq_spec(&self, other: &Dependency) -> bool {
        same_name(self.key@, other.key@)
    }
}

impl Eq for Dependency {
}

/// A registered provider.
#[derive(Debug, Clone)]
pub struct Provider {
    /// Provider key that identifies the provider.
    pub key: String,
    /// Display name of the provider; empty where it has none.
    pub name: String,
    /// Version of the provider.
    pub version: Version,
    /// Identifier of the package in an external system, such as a product code.
    pub id: Option<String>,
    /// Attributes used when checking dependencies.
    pub attributes: Option<Attributes>,
}

/// The content of a [`Provider`].
pub struct ProviderView {
    pub key: Seq<char>,
    pub name: Seq<char>,
    pub version: u64,
    pub id: Option<Seq<char>>,
    pub attributes: Option<Attributes>,
}

impl View for Provider {
    type V = ProviderView;

    open spec fn view(&self) -> ProviderView {
        ProviderView {
            key: self.key@,
            name: self.name@,
            version: self.version.ordinal(),
            id: match self.id {
                Some(s) => Some(s@),
                None => None,
            },
            attributes: self.attributes,
        }
    }
}

/// A record with the key alone.
pub open spec fn bare(key: Seq<char>) -> ProviderView {
    ProviderView { key, name: Seq::empty(), version: 0, id: None, attributes: None }
}

/// The version a stored value gives: a string is parsed, a 64-bit integer is
/// the packed ordinal itself.
pub open spec fn version_of_value(d: Option<DataView>) -> Option<u64> {
    match d {
        Some(DataView::String(s)) => parse_version(s),
        Some(DataView::QWord(x)) => Some(x),
        _ => None,
    }
}

/// Why a version cannot be read: text that does not parse is `Format`; a
/// missing value or one of another type is `NotFound`.
pub open spec fn version_error(d: Option<DataView>) -> Error {
    match d {
        Some(DataView::String(s)) => Error::Format,
        _ => Error::NotFound,
    }
}

/// The text a stored string value holds.
pub open spec fn text_of(d: Option<DataView>) -> Option<Seq<char>> {
    match d {
        Some(DataView::String(s)) => Some(s),
        _ => None,
    }
}

/// The flags a stored 32-bit value holds.
pub open spec fn attributes_of(d: Option<DataView>) -> Option<Attributes> {
    match d {
        Some(DataView::DWord(x)) => Some(
            Attributes {
                min_inclusive: x & crate::MIN_VERSION_INCLUSIVE != 0,
                max_inclusive: x & crate::MAX_VERSION_INCLUSIVE != 0,
            },
        ),
        _ => None,
    }
}

/// The record read from the node at `scope` and `path` under the given key,
/// or the error reading its version gives.
pub open spec fn read_record(
    nodes: Seq<crate::store::NodeView>,
    scope: Scope,
    path: Seq<Seq<char>>,
    key: Seq<char>,
) -> Result<ProviderView, Error> {
    let version = lookup_value(nodes, scope, path, VERSION_VALUE@);
    match version_of_value(version) {
        Some(v) => Ok(
            ProviderView {
                key,
                name: match text_of(lookup_value(nodes, scope, path, DISPLAY_NAME_VALUE@)) {
                    Some(s) => s,
                    None => Seq::empty(),
                },
                version: v,
                id: text_of(lookup_value(nodes, scope, path, DEFAULT_VALUE@)),
                attributes: attributes_of(lookup_value(nodes, scope, path, ATTRIBUTES_VALUE@)),
            },
        ),
        None => Err(version_error(version)),
    }
}

/// A provider's content, or the error.
pub open spec fn result_view(r: Result<Provider, Error>) -> Result<ProviderView, Error> {
    match r {
        Ok(p) => Ok(p@),
        Err(e) => Err(e),
    }
}

impl Default for Provider {
    fn default() -> (r: Provider)
        ensures
            r@ == bare(Seq::empty()),
    {
        let r = Provider::new("");
        proof {
            reveal_strlit("");
            assert(r.key@ =~= Seq::<char>::empty());
        }
        r
    }
}

impl Provider {
    /// A record with the given key and no other metadata.
    pub fn new(provider_key: &str) -> (r: Provider)
        ensures
            r@ == bare(provider_key@),
    {
        let version = Version::from_u64(0);
        Provider {
            key: provider_key.to_owned(),
            name: String::new(),
            version,
            id: None,
            attributes: None,
        }
    }

    /// Reads a provider from its node: the display name from `DisplayName`
    /// (empty where it is missing), the version from `Version`, the external
    /// id from the unnamed value and the flags from `Attributes`. Fails where
    /// the version cannot be read.
    pub fn from(provider_key: &str, key: &Key, store: &Store) -> (r: Result<Provider, Error>)
        ensures
            result_view(r) == read_record(store@, key.scope(), key.path(), provider_key@),
    {
        let version = match key.value(store, VERSION_VALUE) {
            Some(v) => match v.data {
                Data::String(s) => match Version::parse(s.as_str()) {
                    Ok(v) => v,
                    Err(e) => {
                        return Err(e);
                    },
                },
                Data::QWord(x) => Version::from_u64(x),
                _ => {
                    return Err(Error::NotFound);
                },
            },
            None => {
                return Err(Error::NotFound);
            },
        };
        let name = match key.value(store, DISPLAY_NAME_VALUE) {
            Some(v) => match v.data {
                Data::String(s) => s,
                _ => String::new(),
            },
            None => String::new(),
        };
        let id = match key.value(store, DEFAULT_VALUE) {
            Some(v) => match v.data {
                Data::String(s) => Some(s),
                _ => None,
            },
            None => None,
        };
        let attributes = match key.value(store, ATTRIBUTES_VALUE) {
            Some(v) => match v.data {
                Data::DWord(x) => Some(Attributes::from_bits(x)),
                _ => None,
            },
            None => None,
        };
        Ok(Provider { key: provider_key.to_owned(), name, version, id, attributes })
    }

    /// Checks for dependents registered for this provider; see
    /// [`crate::check_dependents`].
    pub fn check_dependents(
        &self,
        store: &Store,
        scope: Scope,
        attributes: Option<Attributes>,
        ignore: Option<&Vec<String>>,
    ) -> (r: Result<Option<Vec<Provider>>, Error>)
        ensures
            r is Ok,
            match r->Ok_0 {
                Some(v) => dependents_of(store@, scope, self.key@, ignore_view(ignore)) == Some(
                    records(v@),
                ),
                None => dependents_of(store@, scope, self.key@, ignore_view(ignore)) is None,
            },
    {
        crate::check_dependents(store, self.key.as_str(), scope, attributes, ignore)
    }

    /// Writes one string value through a handle that is open on an existing
    /// node for writing.
    fn write_string(key: &Key, store: &mut Store, name: &str, text: String) -> (r: Result<(), Error>)
        requires
            key.access() == crate::store::Access::ReadWrite,
            key.path().len() > 0,
            find_node(old(store)@, key.scope(), key.path()) is Some,
        ensures
            ({
                let i = find_node(old(store)@, key.scope(), key.path())->0;
                &&& r is Ok
                &&& 0 <= i < old(store)@.len()
                &&& final(store)@ == with_values(
                    old(store)@,
                    i,
                    put_string(old(store)@[i].values, name@, text@),
                )
                &&& find_node(final(store)@, key.scope(), key.path()) == Some(i)
            }),
            store_wf(old(store)@) ==> store_wf(final(store)@),
    {
        proof {
            lemma_find_node_found(store@, key.scope(), key.path());
            let i = find_node(store@, key.scope(), key.path())->0;
            lemma_find_with_values(
                store@,
                i,
                put_string(store@[i].values, name@, text@),
                key.scope(),
                key.path(),
            );
        }
        let data = Data::String(text);
        key.set_value(store, name, &data)
    }

    /// Registers this provider: creates its node under the registration root,
    /// with each missing ancestor, and writes its display name, version,
    /// external id and flags.
    pub fn register(&self, store: &mut Store, scope: Scope) -> (r: Result<(), Error>)
        ensures
            r is Ok,
            final(store)@ == registered(old(store)@, scope, self@),
            store_wf(old(store)@) ==> store_wf(final(store)@),
    {
        proof {
            crate::lemma_root_path_nonempty();
        }
        let root = match Key::create(store, scope, ROOT_KEY) {
            Ok(k) => k,
            Err(e) => {
                return Err(e);
            },
        };
        let key = match root.create_subkey(store, self.key.as_str()) {
            Ok(k) => k,
            Err(e) => {
                return Err(e);
            },
        };
        let ghost full = provider_path(self.key@);
        proof {
            lemma_with_path_has(with_path(old(store)@, scope, root_path()), scope, full, full.len() as int);
            assert(full.take(full.len() as int) =~= full);
        }
        let name = self.name.clone();
        if let Err(e) = Provider::write_string(&key, store, DISPLAY_NAME_VALUE, name) {
            return Err(e);
        }
        let version = self.version.to_string();
        if let Err(e) = Provider::write_string(&key, store, VERSION_VALUE, version) {
            return Err(e);
        }
        match &self.id {
            Some(id) => {
                if let Err(e) = Provider::write_string(&key, store, DEFAULT_VALUE, id.clone()) {
                    return Err(e);
                }
            },
            None => {},
        }
        match &self.attributes {
            Some(a) => {
                let data = Data::DWord(a.bits());
                proof {
                    lemma_find_node_found(store@, scope, full);
                }
                if let Err(e) = key.set_value(store, ATTRIBUTES_VALUE, &data) {
                    return Err(e);
                }
            },
            None => {},
        }
        assert(store@ =~= registered(old(store)@, scope, self@));
        Ok(())
    }

    /// The display form: `name (key)` where the provider has a display name,
    /// else the key.
    pub fn to_string(&self) -> (r: String)
        ensures
            r@ == display_text(self@),
    {
        if self.name.as_str().is_empty() {
            return self.key.clone();
        }
        let mut text = self.name.clone();
        text.append(" (");
        text.append(self.key.as_str());
        text.append(")");
        proof {
            reveal_strlit(" (");
            reveal_strlit(")");
        }
        text
    }
}

/// A node's values once a provider's registration is written to them: its
/// display name and version as strings, then its external id as the unnamed
/// value and its flags as a 32-bit value, each where it has one.
pub open spec fn registration_values(values: Seq<RawView>, p: ProviderView) -> Seq<RawView> {
    let with_name = put_string(values, DISPLAY_NAME_VALUE@, p.name);
    let with_version = put_string(with_name, VERSION_VALUE@, version_text(p.version));
    let with_id = match p.id {
        Some(id) => put_string(with_version, DEFAULT_VALUE@, id),
        None => with_version,
    };
    match p.attributes {
        Some(a) => put_value(
            with_id,
            ATTRIBUTES_VALUE@,
            encode(DataView::DWord(attribute_bits(a))).0,
            encode(DataView::DWord(attribute_bits(a))).1,
        ),
        None => with_id,
    }
}

/// Values once a string value is written.
pub open spec fn put_string(values: Seq<RawView>, name: Seq<char>, text: Seq<char>) -> Seq<RawView> {
    put_value(values, name, encode(DataView::String(text)).0, encode(DataView::String(text)).1)
}

/// The store once a provider is registered: its node and each missing
/// ancestor are created, then its values are written.
pub open spec fn registered(nodes: Seq<NodeView>, scope: Scope, p: ProviderView) -> Seq<NodeView> {
    let created = with_path(with_path(nodes, scope, root_path()), scope, provider_path(p.key));
    let i = find_node(created, scope, provider_path(p.key))->0;
    with_values(created, i, registration_values(created[i].values, p))
}

/// The display form of a provider.
pub open spec fn display_text(p: ProviderView) -> Seq<char> {
    if p.name.len() == 0 {
        p.key
    } else {
        p.name + seq![' ', '('] + p.key + seq![')']
    }
}

impl PartialEq for Provider {
    fn eq(&self, other: &Provider) -> (r: bool) {
        names_match(self.key.as_str(), other.key.as_str())
    }
}

impl vstd::std_specs::cmp::PartialEqSpecImpl for Provider {
    open spec fn obeys_eq_spec() -> bool {
        true
    }

    open spec fn eq_spec(&self, other: &Provider) -> bool {
        same_name(self.key@, other.key@)
    }
}

impl Eq for Provider {
}

/// What identifies a record: its key, uppercased. Equality compares it, and
/// hashing feeds it to the hasher.
pub open spec fn identity(key: Seq<char>) -> Seq<char> {
    upper_of(key)
}

impl core::hash::Hash for Provider {
    fn hash<H: core::hash::Hasher>(&self, state: &mut H) {
        let identity = to_upper(self.key.as_str());
        identity.hash(state);
    }
}

impl core::hash::Hash for Dependency {
    fn hash<H: core::hash::Hasher>(&self, state: &mut H) {
        let identity = to_upper(self.key.as_str());
        identity.hash(state);
    }
}

/// Records whose keys differ only in letter case, that is, have the same
/// uppercase form, are equal and have the same identity, which is all that
/// hashing reads; each compares with any third record alike.
pub proof fn lemma_case_insensitive_identity(a: Provider, b: Provider, c: Provider)
    requires
        upper_of(a.key@) == upper_of(b.key@),
    ensures
        a.eq_spec(&b),
        b.eq_spec(&a),
        identity(a.key@) == identity(b.key@),
        a.eq_spec(&c) == b.eq_spec(&c),
{
}

} // verus!
