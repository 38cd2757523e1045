use std::path::{Path, PathBuf};
use trait_resolution::registry::{cache_dir, location_from_root, GithubRegistryResolver, Namespace};

fn location(chunk_size: usize, namespace: &Namespace, name: &str) -> PathBuf {
    location_from_root(chunk_size, namespace, name).iter().collect()
}

#[test]
fn test_flat_namespace_with_small_package() {
    let path = location(2, &Namespace::Flat, "ab");
    assert_eq!(path, Path::new("ab").join("ab"));
}

#[test]
fn test_flat_namespace_with_regular_package() {
    let path = location(2, &Namespace::Flat, "foobar");
    assert_eq!(path, Path::new("fo").join("ob").join("ar").join("foobar"));
}

#[test]
fn test_odd_length_package_name() {
    let path = location(2, &Namespace::Flat, "hello");
    assert_eq!(path, Path::new("he").join("ll").join("o").join("hello"));
}

#[test]
fn test_chunking_size_larger_than_name() {
    let path = location(10, &Namespace::Flat, "small");
    assert_eq!(path, Path::new("small").join("small"));
}

#[test]
fn test_unicode_package_name() {
    let path = location(2, &Namespace::Flat, "héllo");
    assert_eq!(path, Path::new("hé").join("ll").join("o").join("héllo"));
}

#[test]
fn test_empty_package_name() {
    let path = location(0, &Namespace::Flat, "");
    assert_eq!(path, Path::new(""));
}

#[test]
fn test_chunking_size_zero() {
    let path = location(0, &Namespace::Flat, "package");
    assert_eq!(path, Path::new("package"));
}

#[test]
fn domain_comes_first() {
    let path = location(2, &Namespace::Domain("example".to_string()), "foobar");
    assert_eq!(path, Path::new("example").join("fo").join("ob").join("ar").join("foobar"));
}

#[test]
fn chunks_of_three() {
    let path = location(3, &Namespace::Flat, "fibonacci");
    assert_eq!(path, Path::new("fib").join("ona").join("cci").join("fibonacci"));
}

#[test]
fn domain_without_chunking() {
    let comps = location_from_root(0, &Namespace::Domain("d".to_string()), "pkg");
    assert_eq!(comps, vec!["d".to_string(), "pkg".to_string()]);
}

#[test]
fn default_resolver() {
    let r = GithubRegistryResolver::with_default_github(Namespace::Flat);
    assert_eq!(r.repo_org, "kayagokalp");
    assert_eq!(r.repo_name, "dummy-forc.pub-index");
    assert_eq!(r.chunk_size, 2);
    let r = GithubRegistryResolver::new("org".to_string(), "idx".to_string(), 3, Namespace::Flat);
    assert_eq!(r.repo_org, "org");
    assert_eq!(r.repo_name, "idx");
    assert_eq!(r.chunk_size, 3);
}

#[test]
fn cache_dir_components() {
    assert_eq!(cache_dir(&Namespace::Flat), vec!["registry".to_string(), "cache".to_string()]);
    assert_eq!(
        cache_dir(&Namespace::Domain("x.io".to_string())),
        vec!["registry".to_string(), "cache".to_string(), "x.io".to_string()]
    );
}

