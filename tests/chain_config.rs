use sha1::{Digest, Sha1};
use trait_resolution::chain_config::{
    build_api_endpoint, fetch_required, git_blob_sha, hex_digest, ChainConfig, GithubContentDetails,
};

fn create_github_response(files: &[(&str, &str)]) -> Vec<GithubContentDetails> {
    files
        .iter()
        .map(|(name, content)| {
            let mut hasher = Sha1::new();
            hasher.update(b"blob ");
            hasher.update(content.len().to_string().as_bytes());
            hasher.update([0]);
            hasher.update(content.as_bytes());
            let sha = format!("{:x}", hasher.finalize());
            GithubContentDetails {
                name: name.to_string(),
                sha,
                download_url: Some(format!("https://raw.githubusercontent.com/test/{}", name)),
                content_type: "file".to_string(),
            }
        })
        .collect()
}

fn local(files: &[(&str, &str)]) -> Option<Vec<(String, String)>> {
    Some(files.iter().map(|(n, c)| (n.to_string(), git_blob_sha(&c.as_bytes().to_vec()))).collect())
}

#[test]
fn test_fetch_not_required_when_files_match() {
    let test_files = [("config.json", "test config content"), ("metadata.json", "test metadata content")];
    let github = create_github_response(&test_files);
    let needs_fetch = fetch_required(&ChainConfig::Testnet, &local(&test_files), &github);
    assert!(!needs_fetch, "Fetch should not be required when files match");
}

#[test]
fn test_fetch_required_when_files_differ() {
    let local_files = [("config.json", "old config content"), ("metadata.json", "old metadata content")];
    let github_files = [("config.json", "new config content"), ("metadata.json", "new metadata content")];
    let github = create_github_response(&github_files);
    let needs_fetch = fetch_required(&ChainConfig::Testnet, &local(&local_files), &github);
    assert!(needs_fetch, "Fetch should be required when files differ");
}

#[test]
fn test_fetch_required_when_files_missing() {
    let local_files = [("config.json", "test config content")];
    let github_files = [("config.json", "test config content"), ("metadata.json", "test metadata content")];
    let github = create_github_response(&github_files);
    let needs_fetch = fetch_required(&ChainConfig::Testnet, &local(&local_files), &github);
    assert!(needs_fetch, "Fetch should be required when files are missing");
}

#[test]
fn test_local_configuration_never_needs_fetch() {
    let needs_fetch = fetch_required(&ChainConfig::Local, &None, &vec![]);
    assert!(!needs_fetch, "Local configuration should never need fetch");
}

#[test]
fn test_fetch_required_when_extra_local_files() {
    let local_files = [
        ("config.json", "test config content"),
        ("metadata.json", "test metadata content"),
        ("extra.json", "extra file content"),
    ];
    let github_files = [("config.json", "test config content"), ("metadata.json", "test metadata content")];
    let github = create_github_response(&github_files);
    let needs_fetch = fetch_required(&ChainConfig::Testnet, &local(&local_files), &github);
    assert!(needs_fetch, "Fetch should be required when there are extra local files");
}

#[test]
fn missing_local_folder_needs_fetch() {
    assert!(fetch_required(&ChainConfig::Ignition, &None, &vec![]));
}

#[test]
fn folders_in_listing_are_ignored() {
    let mut github = create_github_response(&[("config.json", "c")]);
    github.push(GithubContentDetails {
        name: "nested".to_string(),
        sha: "0".to_string(),
        download_url: None,
        content_type: "dir".to_string(),
    });
    assert!(!fetch_required(&ChainConfig::Testnet, &local(&[("config.json", "c")]), &github));
}

#[test]
fn git_blob_sha_of_known_content() {
    // `git hash-object` of an empty file and of "hello\n".
    assert_eq!(git_blob_sha(&vec![]), "e69de29bb2d1d6434b8b29ae775ad8c2e48c5391");
    assert_eq!(git_blob_sha(&b"hello\n".to_vec()), "ce013625030ba8dba906f756967f9e9ca394464a");
}

#[test]
fn hex_digest_writes_two_digits_per_byte() {
    assert_eq!(hex_digest(&vec![0x00, 0x0f, 0xa0, 0xff]), "000fa0ff");
    assert_eq!(hex_digest(&vec![]), "");
}

#[test]
fn api_endpoint_layout() {
    assert_eq!(
        build_api_endpoint("https://api.github.com", "chain-configuration", "testnet"),
        "https://api.github.com/repos/FuelLabs/chain-configuration/contents/testnet"
    );
}

#[test]
fn chain_config_names() {
    assert_eq!(ChainConfig::Local.to_string(), "local");
    assert_eq!(ChainConfig::Testnet.to_string(), "testnet");
    assert_eq!(ChainConfig::Ignition.to_string(), "ignition");
}
