//! Where a package's index file lives in a registry index repository.
use vstd::prelude::*;
use crate::trait_map::strs_view;

verus! {

/// How packages are namespaced in the registry index.
#[derive(Debug)]
pub enum Namespace {
    /// No namespace: nothing is added to a file location.
    Flat,
    /// Custom namespaces: the domain is the first component of a location.
    Domain(String),
}

/// The namespace layouts a registry index can have.
#[derive(Clone, Copy, Debug, PartialEq, Eq, Structural)]
pub enum NamespaceType {
    /// All packages laid out alike, with no level for domains.
    Flat,
    /// Publishers own domains holding several packages: one more level.
    WithDomain,
}

/// A resolver for a registry index hosted as a GitHub repository.
#[derive(Debug)]
pub struct GithubRegistryResolver {
    /// Name of the GitHub organization holding the index repository.
    pub repo_org: String,
    /// Name of the index repository.
    pub repo_name: String,
    /// How many characters of a package name make one directory level.
    pub chunk_size: usize,
    /// Whether a domain comes first in a file location.
    pub namespace: Namespace,
}

impl GithubRegistryResolver {
    pub fn new(repo_org: String, repo_name: String, chunk_size: usize, namespace: Namespace) -> (r: Self)
        ensures
            r.repo_org == repo_org,
            r.repo_name == repo_name,
            r.chunk_size == chunk_size,
            r.namespace == namespace,
    {
        GithubRegistryResolver { repo_org, repo_name, chunk_size, namespace }
    }

    /// A resolver on the default index repository, chunking by two.
    pub fn with_default_github(namespace: Namespace) -> (r: Self)
        ensures
            r.repo_org@ == "kayagokalp"@,
            r.repo_name@ == "dummy-forc.pub-index"@,
            r.chunk_size == 2,
            r.namespace == namespace,
    {
        GithubRegistryResolver {
            repo_org: "kayagokalp".to_owned(),
            repo_name: "dummy-forc.pub-index".to_owned(),
            chunk_size: 2,
            namespace,
        }
    }
}

/// `s` cut into pieces of `n` characters, the last one possibly shorter.
pub open spec fn chunks(s: Seq<char>, n: nat) -> Seq<Seq<char>>
    decreases s.len(),
{
    if s.len() == 0 || n == 0 {
        Seq::empty()
    } else if s.len() <= n {
        seq![s]
    } else {
        seq![s.take(n as int)] + chunks(s.skip(n as int), n)
    }
}

pub open spec fn namespace_prefix(namespace: Namespace) -> Seq<Seq<char>> {
    match namespace {
        Namespace::Flat => Seq::empty(),
        Namespace::Domain(d) => seq![d@],
    }
}

/// The components of an index file's location from the root of the index:
/// the domain (if any), the name cut into chunks (unless chunking is off),
/// then the name itself.
pub open spec fn location_spec(chunk_size: usize, namespace: Namespace, name: Seq<char>) -> Seq<Seq<char>> {
    namespace_prefix(namespace) + chunks(name, chunk_size as nat) + seq![name]
}

/// The location of `name`'s index file from the root of the index, as path
/// components.
pub fn location_from_root(chunk_size: usize, namespace: &Namespace, name: &str) -> (r: Vec<String>)
    ensures
        strs_view(r@) == location_spec(chunk_size, *namespace, name@),
{
    let mut path: Vec<String> = Vec::new();
    if let Namespace::Domain(domain) = namespace {
        path.push(domain.clone());
    }
    assert(strs_view(path@) =~= namespace_prefix(*namespace));
    let ghost base = strs_view(path@);
    let len = name.unicode_len();
    if chunk_size > 0 {
        let mut i: usize = 0;
        assert(name@.skip(0) =~= name@);
        while i < len
            invariant
                len == name@.len(),
                chunk_size > 0,
                i <= len,
                strs_view(path@) + chunks(name@.skip(i as int), chunk_size as nat) == base + chunks(
                    name@,
                    chunk_size as nat,
                ),
            decreases len - i,
        {
            let end: usize = if len - i <= chunk_size { len } else { i + chunk_size };
            let piece = name.substring_char(i, end).to_owned();
            let ghost rest = name@.skip(i as int);
            let ghost prev = strs_view(path@);
            path.push(piece);
            proof {
                assert(strs_view(path@) =~= prev.push(piece@));
                if len - i <= chunk_size {
                    assert(piece@ =~= rest);
                    assert(name@.skip(end as int) =~= Seq::<char>::empty());
                    assert(chunks(rest, chunk_size as nat) == seq![rest]);
                    assert(strs_view(path@) + chunks(name@.skip(end as int), chunk_size as nat) =~= prev
                        + chunks(rest, chunk_size as nat));
                } else {
                    assert(piece@ =~= rest.take(chunk_size as int));
                    assert(rest.skip(chunk_size as int) =~= name@.skip(end as int));
                    assert(strs_view(path@) + chunks(name@.skip(end as int), chunk_size as nat) =~= prev
                        + chunks(rest, chunk_size as nat));
                }
            }
            i = end;
        }
        proof {
            assert(name@.skip(len as int) =~= Seq::<char>::empty());
        }
    }
    assert(strs_view(path@) =~= base + chunks(name@, chunk_size as nat));
    let ghost prev = strs_view(path@);
    path.push(name.to_owned());
    assert(strs_view(path@) =~= prev.push(name@));
    path
}

/// The components of the registry cache directory below the user's forc
/// directory: `registry/cache`, then the domain if any.
pub fn cache_dir(namespace: &Namespace) -> (r: Vec<String>)
    ensures
        strs_view(r@) == seq!["registry"@, "cache"@] + namespace_prefix(*namespace),
{
    let mut r: Vec<String> = Vec::new();
    r.push("registry".to_owned());
    r.push("cache".to_owned());
    if let Namespace::Domain(d) = namespace {
        r.push(d.clone());
    }
    assert(strs_view(r@) =~= seq!["registry"@, "cache"@] + namespace_prefix(*namespace));
    r
}

} // verus!
