use vstd::prelude::*;

mod config;
mod error;
mod provider;
mod registry;
mod store;
mod text;
mod version;

pub use config::{
    ATTRIBUTES_VALUE, DEFAULT_VALUE, DEPENDENTS_KEY, DISPLAY_NAME_VALUE, ROOT_KEY, VERSION_VALUE,
};
pub use error::Error;
pub use provider::{
    bare, display_text, identity, lemma_case_insensitive_identity, read_record, registered,
    Dependency, Provider, ProviderView,
};
pub use store::{
    all_prefixes_exist, children, has_node, lemma_ancestors_exist, lookup_value, store_wf, path_segments, path_views, same_name, with_path, Access,
    Key, NodeView, Store, E_ACCESS_DENIED, E_FILE_NOT_FOUND,
};
pub use registry::{
    decode, get_name, lemma_le_round_trip, lemma_segments_shaped, lemma_units_round_trip,
    round_trips, name_of, next_read_step, segments, strings_shaped,
    units_of, units_shaped, Data, DataView, ReadOutcome, ReadStep, Value, REG_BINARY, REG_DWORD, REG_EXPAND_SZ,
    REG_MULTI_SZ, REG_QWORD, REG_SZ,
};
pub use text::{lower_of, upper_of, utf16_lossy, utf16_of};
pub use version::{
    canonical_text, fields_less, lemma_decompose, lemma_unpack, lemma_malformed_rejected, lemma_order_by_fields,
    lemma_format_parse_round_trip, lemma_parse_format_round_trip, parse_version, version_text,
    Version,
};

verus! {

use crate::text::to_lower;
use crate::store::names_match;

/// Selects which store root a check runs against.
#[derive(Clone, Copy, Debug, PartialEq, Eq, Structural)]
pub enum Scope {
    /// The per-user root.
    User,
    /// The machine-wide root.
    Machine,
}

impl Default for Scope {
    fn default() -> (r: Scope)
        ensures
            r == Scope::Machine,
    {
        Scope::Machine
    }
}

impl Scope {
    /// The lowercase name of the scope.
    pub fn to_string(&self) -> (r: String)
        ensures
            r@ == scope_name(*self),
    {
        match self {
            Scope::User => String::from_str("user"),
            Scope::Machine => String::from_str("machine"),
        }
    }

    /// Reads a scope name, ignoring letter case; any other name is
    /// `NotSupported`.
    pub fn parse(s: &str) -> (r: Result<Scope, Error>)
        ensures
            lower_of(s@) == "user"@ ==> r == Ok::<Scope, Error>(Scope::User),
            lower_of(s@) == "machine"@ ==> r == Ok::<Scope, Error>(Scope::Machine),
            lower_of(s@) != "user"@ && lower_of(s@) != "machine"@ ==> r == Err::<Scope, Error>(
                Error::NotSupported,
            ),
    {
        let lowered = to_lower(s);
        proof {
            reveal_strlit("user");
            reveal_strlit("machine");
            assert("user"@[0] != "machine"@[0]);
        }
        if lowered == String::from_str("user") {
            Ok(Scope::User)
        } else if lowered == String::from_str("machine") {
            Ok(Scope::Machine)
        } else {
            Err(Error::NotSupported)
        }
    }
}

/// The name of a scope.
pub open spec fn scope_name(s: Scope) -> Seq<char> {
    match s {
        Scope::User => "user"@,
        Scope::Machine => "machine"@,
    }
}

impl core::str::FromStr for Scope {
    type Err = Error;

    fn from_str(s: &str) -> (r: Result<Scope, Error>)
        ensures
            lower_of(s@) == "user"@ ==> r == Ok::<Scope, Error>(Scope::User),
            lower_of(s@) == "machine"@ ==> r == Ok::<Scope, Error>(Scope::Machine),
            lower_of(s@) != "user"@ && lower_of(s@) != "machine"@ ==> r == Err::<Scope, Error>(
                Error::NotSupported,
            ),
    {
        Scope::parse(s)
    }
}

/// Flag bit: the minimum version bound is inclusive.
pub const MIN_VERSION_INCLUSIVE: u32 = 0x100;

/// Flag bit: the maximum version bound is inclusive.
pub const MAX_VERSION_INCLUSIVE: u32 = 0x200;

/// Flags that control a version range check. Each bound is exclusive unless
/// its flag is set.
#[derive(Clone, Copy, Debug, PartialEq, Eq, Structural)]
pub struct Attributes {
    pub min_inclusive: bool,
    pub max_inclusive: bool,
}

impl Default for Attributes {
    fn default() -> (r: Attributes)
        ensures
            !r.min_inclusive && !r.max_inclusive,
    {
        Attributes { min_inclusive: false, max_inclusive: false }
    }
}

impl Attributes {
    /// Whether the minimum bound is inclusive.
    pub fn is_min_inclusive(&self) -> (r: bool)
        ensures
            r == self.min_inclusive,
    {
        self.min_inclusive
    }

    /// Whether the maximum bound is inclusive.
    pub fn is_max_inclusive(&self) -> (r: bool)
        ensures
            r == self.max_inclusive,
    {
        self.max_inclusive
    }

    /// The flags a stored bit mask sets; other bits are ignored.
    pub fn from_bits(bits: u32) -> (r: Attributes)
        ensures
            r.min_inclusive == (bits & MIN_VERSION_INCLUSIVE != 0),
            r.max_inclusive == (bits & MAX_VERSION_INCLUSIVE != 0),
    {
        Attributes {
            min_inclusive: bits & MIN_VERSION_INCLUSIVE != 0,
            max_inclusive: bits & MAX_VERSION_INCLUSIVE != 0,
        }
    }

    /// The bit mask of the flags.
    pub fn bits(&self) -> (r: u32)
        ensures
            r == attribute_bits(*self),
    {
        let min: u32 = if self.min_inclusive { MIN_VERSION_INCLUSIVE } else { 0 };
        let max: u32 = if self.max_inclusive { MAX_VERSION_INCLUSIVE } else { 0 };
        min + max
    }
}

/// The path of the registration root.
pub open spec fn root_path() -> Seq<Seq<char>> {
    path_segments(ROOT_KEY@)
}

/// The registration root is below each scope's root, not the root itself.
pub proof fn lemma_root_path_nonempty()
    ensures
        root_path().len() > 0,
{
    reveal_strlit("Software\\Classes\\Installer\\Dependencies");
    assert(ROOT_KEY@.last() == 's');
    store::lemma_segments_nonempty(ROOT_KEY@);
}

/// The path of a provider's node.
pub open spec fn provider_path(key: Seq<char>) -> Seq<Seq<char>> {
    root_path() + path_segments(key)
}

/// The path of the node whose children name a provider's dependents.
pub open spec fn dependents_path(key: Seq<char>) -> Seq<Seq<char>> {
    provider_path(key) + path_segments(DEPENDENTS_KEY@)
}

/// What looking a provider up gives: `NotFound` where the registration root
/// or the provider's node is missing, else what reading its node gives.
pub open spec fn provider_lookup(nodes: Seq<NodeView>, scope: Scope, key: Seq<char>) -> Result<
    ProviderView,
    Error,
> {
    if !has_node(nodes, scope, root_path()) || !has_node(nodes, scope, provider_path(key)) {
        Err(Error::NotFound)
    } else {
        read_record(nodes, scope, provider_path(key), key)
    }
}

/// The contents of a list of providers.
pub open spec fn records(v: Seq<Provider>) -> Seq<ProviderView> {
    v.map_values(|p: Provider| p@)
}

/// A violation set once `p` is inserted: unchanged where it already holds a
/// record with the same key regardless of letter case.
pub open spec fn insert_record(set: Seq<ProviderView>, p: ProviderView) -> Seq<ProviderView> {
    if exists|i: int| 0 <= i < set.len() && same_name(#[trigger] set[i].key, p.key) {
        set
    } else {
        set.push(p)
    }
}

/// The flags in force: both bounds exclusive where none are given.
pub open spec fn flags_of(attributes: Option<Attributes>) -> Attributes {
    match attributes {
        Some(a) => a,
        None => Attributes { min_inclusive: false, max_inclusive: false },
    }
}

/// Whether a version meets a minimum bound; no bound always holds.
pub open spec fn min_satisfied(min: Option<Version>, inclusive: bool, v: u64) -> bool {
    match min {
        Some(m) => (inclusive && m.ordinal() <= v) || m.ordinal() < v,
        None => true,
    }
}

/// Whether a version meets a maximum bound; no bound always holds.
pub open spec fn max_satisfied(max: Option<Version>, inclusive: bool, v: u64) -> bool {
    match max {
        Some(m) => (inclusive && v <= m.ordinal()) || v < m.ordinal(),
        None => true,
    }
}

/// What checking one dependency gives, and the record it adds to the
/// violation set, if any.
pub open spec fn dependency_outcome(
    nodes: Seq<NodeView>,
    key: Seq<char>,
    scope: Scope,
    min: Option<Version>,
    max: Option<Version>,
    attributes: Option<Attributes>,
) -> (Result<(), Error>, Option<ProviderView>) {
    if !has_node(nodes, scope, root_path()) {
        (Err(Error::RegistryError(E_FILE_NOT_FOUND)), None)
    } else {
        match provider_lookup(nodes, scope, key) {
            Err(_) => (Err(Error::NotFound), Some(bare(key))),
            Ok(rec) => if !min_satisfied(min, flags_of(attributes).min_inclusive, rec.version) {
                (Err(Error::NotFound), Some(rec))
            } else if !max_satisfied(max, flags_of(attributes).max_inclusive, rec.version) {
                (Err(Error::NotFound), Some(rec))
            } else {
                (Ok(()), None)
            },
        }
    }
}

/// The names in an ignore list.
pub open spec fn ignore_view(ignore: Option<&Vec<String>>) -> Option<Seq<Seq<char>>> {
    match ignore {
        Some(v) => Some(path_views(v@)),
        None => None,
    }
}

/// Whether a dependent is ignored: its name is in the list, compared exactly,
/// letter case included.
pub open spec fn is_ignored(ignore: Option<Seq<Seq<char>>>, name: Seq<char>) -> bool {
    match ignore {
        Some(list) => list.contains(name),
        None => false,
    }
}

/// A dependent's record: the provider read from its node, or the key alone
/// where that cannot be read.
pub open spec fn resolved(nodes: Seq<NodeView>, scope: Scope, name: Seq<char>) -> ProviderView {
    match provider_lookup(nodes, scope, name) {
        Ok(p) => p,
        Err(_) => bare(name),
    }
}

/// The dependents of a provider that are not ignored, in store order, or
/// `None` where the registration root, the provider's node or its `Dependents`
/// node is missing.
pub open spec fn dependents_of(
    nodes: Seq<NodeView>,
    scope: Scope,
    key: Seq<char>,
    ignore: Option<Seq<Seq<char>>>,
) -> Option<Seq<ProviderView>> {
    if !has_node(nodes, scope, root_path()) || !has_node(nodes, scope, provider_path(key))
        || !has_node(nodes, scope, dependents_path(key)) {
        None
    } else {
        Some(
            children(nodes, scope, dependents_path(key)).filter(
                |n: NodeView| !is_ignored(ignore, n.path.last()),
            ).map_values(|n: NodeView| resolved(nodes, scope, n.path.last())),
        )
    }
}

/// The records a dependents check returns carry, in store order, the names of
/// the children of the `Dependents` node that the ignore list does not name:
/// each record's key is its child's name, whether or not the child resolves.
pub proof fn lemma_dependent_keys(
    nodes: Seq<NodeView>,
    scope: Scope,
    key: Seq<char>,
    ignore: Option<Seq<Seq<char>>>,
)
    requires
        dependents_of(nodes, scope, key, ignore) is Some,
    ensures
        ({
            let v = dependents_of(nodes, scope, key, ignore)->0;
            let kept = children(nodes, scope, dependents_path(key)).filter(
                |n: NodeView| !is_ignored(ignore, n.path.last()),
            );
            &&& v.len() == kept.len()
            &&& forall|i: int|
                0 <= i < v.len() ==> (#[trigger] v[i]).key == kept[i].path.last() && !is_ignored(
                    ignore,
                    v[i].key,
                )
        }),
{
    let keep = |n: NodeView| !is_ignored(ignore, n.path.last());
    let kept = children(nodes, scope, dependents_path(key)).filter(keep);
    let v = dependents_of(nodes, scope, key, ignore)->0;
    assert forall|i: int| 0 <= i < v.len() implies (#[trigger] v[i]).key == kept[i].path.last()
        && !is_ignored(ignore, v[i].key) by {
        let name = kept[i].path.last();
        children(nodes, scope, dependents_path(key)).lemma_filter_pred(keep, i);
        match provider_lookup(nodes, scope, name) {
            Ok(p) => {
                assert(p.key == name);
            },
            Err(_) => {},
        }
    }
}

/// Gets a provider's registration.
pub fn get_provider(store: &Store, provider_key: &str, scope: Scope) -> (r: Result<Provider, Error>)
    ensures
        provider::result_view(r) == provider_lookup(store@, scope, provider_key@),
{
    let root = match Key::open(store, scope, ROOT_KEY) {
        Ok(k) => k,
        Err(e) => {
            return Err(e);
        },
    };
    let key = match root.open_subkey(store, provider_key) {
        Ok(k) => k,
        Err(e) => {
            return Err(e);
        },
    };
    Provider::from(provider_key, &key, store)
}

/// Adds a record to a violation set unless it holds one with the same key.
fn insert_provider(set: &mut Vec<Provider>, p: Provider)
    ensures
        records(final(set)@) == insert_record(records(old(set)@), p@),
{
    let mut i: usize = 0;
    while i < set.len()
        invariant
            i <= set@.len(),
            set@ == old(set)@,
            forall|j: int| 0 <= j < i ==> !same_name(#[trigger] records(set@)[j].key, p@.key),
        decreases set@.len() - i,
    {
        if names_match(set[i].key.as_str(), p.key.as_str()) {
            assert(same_name(records(set@)[i as int].key, p@.key));
            return;
        }
        i = i + 1;
    }
    let ghost before = records(set@);
    set.push(p);
    assert(records(set@) =~= before.push(p@));
}

/// Checks that a dependency is registered and within the requested version
/// range. Where it is not, its record goes into the violation set (the key
/// alone where its node or version cannot be read) and the result is
/// `NotFound`. A missing registration root is a store failure.
pub fn check_dependencies(
    store: &Store,
    provider_key: &str,
    scope: Scope,
    min_version: Option<Version>,
    max_version: Option<Version>,
    attributes: Option<Attributes>,
    dependencies: &mut Vec<Provider>,
) -> (r: Result<(), Error>)
    ensures
        ({
            let (result, added) = dependency_outcome(
                store@,
                provider_key@,
                scope,
                min_version,
                max_version,
                attributes,
            );
            &&& r == result
            &&& records(final(dependencies)@) == match added {
                Some(p) => insert_record(records(old(dependencies)@), p),
                None => records(old(dependencies)@),
            }
        }),
{
    let root = match Key::open(store, scope, ROOT_KEY) {
        Ok(k) => k,
        Err(_) => {
            return Err(Error::RegistryError(E_FILE_NOT_FOUND));
        },
    };
    let dependency = match root.open_subkey(store, provider_key) {
        Ok(key) => match Provider::from(provider_key, &key, store) {
            Ok(p) => p,
            Err(_) => {
                insert_provider(dependencies, Provider::new(provider_key));
                return Err(Error::NotFound);
            },
        },
        Err(_) => {
            insert_provider(dependencies, Provider::new(provider_key));
            return Err(Error::NotFound);
        },
    };
    let flags = match attributes {
        Some(a) => a,
        None => Attributes::default(),
    };
    if let Some(min) = min_version {
        let allow_equal = flags.is_min_inclusive();
        let low = min.to_u64();
        let v = dependency.version.to_u64();
        if !(allow_equal && low <= v || low < v) {
            insert_provider(dependencies, dependency);
            return Err(Error::NotFound);
        }
    }
    if let Some(max) = max_version {
        let allow_equal = flags.is_max_inclusive();
        let high = max.to_u64();
        let v = dependency.version.to_u64();
        if !(allow_equal && v <= high || v < high) {
            insert_provider(dependencies, dependency);
            return Err(Error::NotFound);
        }
    }
    Ok(())
}

/// Whether a name is in an ignore list, compared exactly.
fn ignored(ignore: Option<&Vec<String>>, name: &String) -> (r: bool)
    ensures
        r == is_ignored(ignore_view(ignore), name@),
{
    match ignore {
        None => false,
        Some(list) => {
            let ghost names = path_views(list@);
            let mut i: usize = 0;
            while i < list.len()
                invariant
                    ignore == Some(list),
                    names == path_views(list@),
                    i <= list@.len(),
                    forall|j: int| 0 <= j < i ==> names[j] != name@,
                decreases list@.len() - i,
            {
                if list[i] == *name {
                    assert(names[i as int] == name@);
                    assert(names.contains(name@));
                    return true;
                }
                i = i + 1;
            }
            assert(!names.contains(name@));
            false
        },
    }
}

/// Checks for dependents registered for a provider that is being removed.
/// Each child of the provider's `Dependents` node names one; those named in
/// `ignore` (compared exactly, letter case included) are left out, and each
/// other one is read as a provider, or kept as its key alone where it cannot
/// be read. `None` where the registration root, the provider's node or its
/// `Dependents` node is missing. `attributes` is reserved and not read.
#[allow(unused_variables)]
pub fn check_dependents(
    store: &Store,
    provider_key: &str,
    scope: Scope,
    attributes: Option<Attributes>,
    ignore: Option<&Vec<String>>,
) -> (r: Result<Option<Vec<Provider>>, Error>)
    ensures
        r is Ok,
        match r->Ok_0 {
            Some(v) => dependents_of(store@, scope, provider_key@, ignore_view(ignore)) == Some(
                records(v@),
            ),
            None => dependents_of(store@, scope, provider_key@, ignore_view(ignore)) is None,
        },
{
    let root = match Key::open(store, scope, ROOT_KEY) {
        Ok(k) => k,
        Err(_) => {
            return Ok(None);
        },
    };
    let key = match root.open_subkey(store, provider_key) {
        Ok(k) => k,
        Err(_) => {
            return Ok(None);
        },
    };
    let key = match key.open_subkey(store, DEPENDENTS_KEY) {
        Ok(k) => k,
        Err(_) => {
            return Ok(None);
        },
    };
    let keys = match key.keys(store) {
        Ok(ks) => ks,
        Err(e) => {
            return Err(e);
        },
    };
    let ghost c = children(store@, scope, dependents_path(provider_key@));
    let ghost iv = ignore_view(ignore);
    let ghost keep = |n: NodeView| !is_ignored(iv, n.path.last());
    let ghost f = |n: NodeView| resolved(store@, scope, n.path.last());
    let mut out: Vec<Provider> = Vec::new();
    let mut i: usize = 0;
    proof {
        reveal(Seq::filter);
    }
    assert(c.take(0).filter(keep) =~= Seq::<NodeView>::empty());
    while i < keys.len()
        invariant
            c == children(store@, scope, dependents_path(provider_key@)),
            iv == ignore_view(ignore),
            keep == (|n: NodeView| !is_ignored(iv, n.path.last())),
            f == (|n: NodeView| resolved(store@, scope, n.path.last())),
            keys@.len() == c.len(),
            forall|j: int|
                0 <= j < c.len() ==> store::child_key(#[trigger] keys@[j], c[j], Access::Read),
            i <= c.len(),
            records(out@) == c.take(i as int).filter(keep).map_values(f),
        decreases c.len() - i,
    {
        let child = &keys[i];
        assert(store::child_key(keys@[i as int], c[i as int], Access::Read));
        let name = child.name();
        assert(c.take(i as int + 1).drop_last() =~= c.take(i as int));
        assert(c.take(i as int + 1).last() == c[i as int]);
        proof {
            reveal(Seq::filter);
        }
        if ignored(ignore, name) {
            assert(!keep(c[i as int]));
            assert(c.take(i as int + 1).filter(keep) == c.take(i as int).filter(keep));
        } else {
            assert(keep(c[i as int]));
            assert(c.take(i as int + 1).filter(keep) == c.take(i as int).filter(keep).push(
                c[i as int],
            ));
            let dependent = match get_provider(store, name.as_str(), scope) {
                Ok(p) => p,
                Err(_) => Provider::new(name.as_str()),
            };
            assert(dependent@ == f(c[i as int]));
            let ghost before = records(out@);
            out.push(dependent);
            assert(records(out@) =~= before.push(f(c[i as int])));
            assert(records(out@) =~= c.take(i as int + 1).filter(keep).map_values(f));
        }
        i = i + 1;
    }
    assert(c.take(c.len() as int) =~= c);
    Ok(Some(out))
}

/// The exit status of a dependents check: 1 where it found any dependents,
/// else 0.
pub fn exit_code(found: &Option<Vec<Provider>>) -> (r: i32)
    ensures
        r == match found {
            Some(v) => if v@.len() > 0 {
                1i32
            } else {
                0i32
            },
            None => 0i32,
        },
{
    match found {
        Some(v) => if v.len() > 0 {
            1
        } else {
            0
        },
        None => 0,
    }
}

/// The bit mask of a set of flags.
pub open spec fn attribute_bits(a: Attributes) -> u32 {
    ((if a.min_inclusive { MIN_VERSION_INCLUSIVE } else { 0u32 }) + (if a.max_inclusive {
        MAX_VERSION_INCLUSIVE
    } else {
        0u32
    })) as u32
}

} // verus!
