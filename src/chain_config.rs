//! Deciding whether a network's local configuration files are out of date
//! with the copies published on GitHub.
use vstd::prelude::*;
use crate::assoc::{assoc_view, lemma_assoc_dom};

verus! {

/// The networks a node can be configured for.
#[derive(Clone, Copy, Debug, PartialEq, Eq, Structural)]
pub enum ChainConfig {
    Local,
    Testnet,
    Ignition,
}

impl ChainConfig {
    pub open spec fn name_spec(self) -> Seq<char> {
        match self {
            ChainConfig::Local => "local"@,
            ChainConfig::Testnet => "testnet"@,
            ChainConfig::Ignition => "ignition"@,
        }
    }

    /// The network's name as it is shown to users.
    pub fn to_string(&self) -> (r: String)
        ensures
            r@ == self.name_spec(),
    {
        match self {
            ChainConfig::Local => "local".to_owned(),
            ChainConfig::Testnet => "testnet".to_owned(),
            ChainConfig::Ignition => "ignition".to_owned(),
        }
    }
}

/// An entry of a GitHub repository's contents listing.
#[derive(Debug)]
pub struct GithubContentDetails {
    pub name: String,
    pub sha: String,
    pub download_url: Option<String>,
    pub content_type: String,
}

/// The contents endpoint of folder `folder_name` of repository `repo` of
/// the FuelLabs organization.
pub fn build_api_endpoint(base_url: &str, repo: &str, folder_name: &str) -> (r: String)
    ensures
        r@ == base_url@ + "/repos/FuelLabs/"@ + repo@ + "/contents/"@ + folder_name@,
{
    let mut r = base_url.to_owned();
    r.append("/repos/FuelLabs/");
    r.append(repo);
    r.append("/contents/");
    r.append(folder_name);
    r
}

/// What SHA-1 gives for `data`.
pub uninterp spec fn sha1_of(data: Seq<u8>) -> Seq<u8>;

/// Relies on `sha1::Sha1` through `digest::Digest::digest`: the SHA-1 digest
/// of the bytes, whose output size is 20 bytes.
#[verifier::external_body]
fn sha1_digest(data: &Vec<u8>) -> (r: Vec<u8>)
    ensures
        r@ == sha1_of(data@),
        r@.len() == 20,
{
    <sha1::Sha1 as sha1::Digest>::digest(data).to_vec()
}

pub open spec fn hex_char(n: u8) -> char {
    if n < 10 {
        (48 + n) as char
    } else {
        (87 + n) as char
    }
}

/// Two lower-case hexadecimal digits per byte.
pub open spec fn hex_of(bytes: Seq<u8>) -> Seq<char>
    decreases bytes.len(),
{
    if bytes.len() == 0 {
        Seq::empty()
    } else {
        hex_of(bytes.drop_last()) + seq![hex_char(bytes.last() / 16), hex_char(bytes.last() % 16)]
    }
}

/// The decimal digits of `n`, as ASCII bytes.
pub open spec fn decimal_bytes(n: nat) -> Seq<u8>
    decreases n,
{
    if n < 10 {
        seq![(48 + n) as u8]
    } else {
        decimal_bytes(n / 10) + seq![(48 + n % 10) as u8]
    }
}

/// What git hashes for a file: `blob <length>`, a zero byte, the content.
pub open spec fn blob_bytes(content: Seq<u8>) -> Seq<u8> {
    seq![98u8, 108u8, 111u8, 98u8, 32u8] + decimal_bytes(content.len()) + seq![0u8] + content
}

fn hex_digit(n: u8) -> (r: &'static str)
    requires
        n < 16,
    ensures
        r@ == seq![hex_char(n)],
{
    match n {
        0 => { proof { reveal_strlit("0"); } "0" },
        1 => { proof { reveal_strlit("1"); } "1" },
        2 => { proof { reveal_strlit("2"); } "2" },
        3 => { proof { reveal_strlit("3"); } "3" },
        4 => { proof { reveal_strlit("4"); } "4" },
        5 => { proof { reveal_strlit("5"); } "5" },
        6 => { proof { reveal_strlit("6"); } "6" },
        7 => { proof { reveal_strlit("7"); } "7" },
        8 => { proof { reveal_strlit("8"); } "8" },
        9 => { proof { reveal_strlit("9"); } "9" },
        10 => { proof { reveal_strlit("a"); } "a" },
        11 => { proof { reveal_strlit("b"); } "b" },
        12 => { proof { reveal_strlit("c"); } "c" },
        13 => { proof { reveal_strlit("d"); } "d" },
        14 => { proof { reveal_strlit("e"); } "e" },
        _ => { proof { reveal_strlit("f"); } "f" },
    }
}

/// A digest written as lower-case hexadecimal, two digits per byte.
pub fn hex_digest(digest: &Vec<u8>) -> (r: String)
    ensures
        r@ == hex_of(digest@),
{
    let mut r = String::new();
    let mut i: usize = 0;
    while i < digest.len()
        invariant
            i <= digest@.len(),
            r@ == hex_of(digest@.take(i as int)),
        decreases digest@.len() - i,
    {
        let b = digest[i];
        r.append(hex_digit(b / 16));
        r.append(hex_digit(b % 16));
        assert(digest@.take(i as int + 1).drop_last() =~= digest@.take(i as int));
        i += 1;
    }
    assert(digest@.take(digest@.len() as int) =~= digest@);
    r
}

fn push_decimal(out: &mut Vec<u8>, n: usize)
    ensures
        final(out)@ == old(out)@ + decimal_bytes(n as nat),
    decreases n,
{
    if n >= 10 {
        push_decimal(out, n / 10);
    }
    let ghost mid = out@;
    out.push((48 + n % 10) as u8);
    proof {
        if n < 10 {
            assert(n % 10 == n);
        }
        assert(out@ =~= old(out)@ + decimal_bytes(n as nat));
    }
}

/// The object id git gives a file of this content: the hexadecimal SHA-1
/// of the content with its blob header.
pub fn git_blob_sha(content: &Vec<u8>) -> (r: String)
    ensures
        r@ == hex_of(sha1_of(blob_bytes(content@))),
{
    let mut data: Vec<u8> = Vec::new();
    data.push(98u8);
    data.push(108u8);
    data.push(111u8);
    data.push(98u8);
    data.push(32u8);
    push_decimal(&mut data, content.len());
    data.push(0u8);
    let mut i: usize = 0;
    let ghost head = data@;
    while i < content.len()
        invariant
            i <= content@.len(),
            data@ == head + content@.take(i as int),
        decreases content@.len() - i,
    {
        data.push(content[i]);
        i += 1;
        assert(data@ =~= head + content@.take(i as int));
    }
    assert(content@.take(content@.len() as int) =~= content@);
    assert(data@ =~= blob_bytes(content@));
    hex_digest(&sha1_digest(&data))
}

pub open spec fn local_map(local: Seq<(String, String)>) -> Map<Seq<char>, Seq<char>> {
    assoc_view(local.map_values(|p: (String, String)| (p.0@, p.1@)))
}

pub open spec fn is_file(f: GithubContentDetails) -> bool {
    f.content_type@ == "file"@
}

/// The names of the files (not folders) of a listing.
pub open spec fn remote_file_names(remote: Seq<GithubContentDetails>) -> Set<Seq<char>> {
    Set::new(|n: Seq<char>| exists|i: int| 0 <= i < remote.len() && #[trigger] file_named(remote[i], n))
}

pub open spec fn file_named(f: GithubContentDetails, n: Seq<char>) -> bool {
    is_file(f) && f.name@ == n
}

/// A fetch is needed unless the network is the local one, or the local
/// files (name to git object id) are exactly the listed files, each with
/// the listed object id.
pub open spec fn fetch_required_spec(
    conf: ChainConfig,
    local: Option<Seq<(String, String)>>,
    remote: Seq<GithubContentDetails>,
) -> bool {
    conf != ChainConfig::Local && match local {
        None => true,
        Some(l) => (exists|i: int| 0 <= i < remote.len() && #[trigger] file_stale(remote[i], local_map(l)))
            || local_map(l).dom() != remote_file_names(remote),
    }
}

/// A listed file that is missing locally or recorded with another object id.
pub open spec fn file_stale(f: GithubContentDetails, m: Map<Seq<char>, Seq<char>>) -> bool {
    is_file(f) && !(m.contains_key(f.name@) && m[f.name@] == f.sha@)
}

/// The object id recorded locally for `name`, if any (the last entry wins).
fn local_sha<'a>(local: &'a Vec<(String, String)>, name: &String) -> (r: Option<&'a String>)
    ensures
        r matches Some(s) ==> local_map(local@).contains_key(name@) && local_map(local@)[name@] == s@,
        r is None ==> !local_map(local@).contains_key(name@),
{
    let ghost sq = local@.map_values(|p: (String, String)| (p.0@, p.1@));
    let mut found: Option<usize> = None;
    let mut i: usize = 0;
    while i < local.len()
        invariant
            i <= local@.len(),
            sq == local@.map_values(|p: (String, String)| (p.0@, p.1@)),
            found matches Some(k) ==> k < i && assoc_view(sq.take(i as int)).contains_key(name@) && assoc_view(
                sq.take(i as int),
            )[name@] == sq[k as int].1,
            found is None ==> !assoc_view(sq.take(i as int)).contains_key(name@),
        decreases local@.len() - i,
    {
        assert(sq.take(i as int + 1).drop_last() =~= sq.take(i as int));
        if local[i].0 == *name {
            found = Some(i);
        }
        i += 1;
    }
    assert(sq.take(local@.len() as int) =~= sq);
    match found {
        Some(k) => Some(&local[k].1),
        None => None,
    }
}

pub open spec fn local_seq(local: Option<Vec<(String, String)>>) -> Option<Seq<(String, String)>> {
    match local {
        None => None,
        Some(l) => Some(l@),
    }
}

/// Whether the local configuration of `conf` must be fetched again, given
/// the local files (name and git object id; `None` when the folder is
/// missing) and the listing of the published folder.
pub fn fetch_required(
    conf: &ChainConfig,
    local_files: &Option<Vec<(String, String)>>,
    github_files: &Vec<GithubContentDetails>,
) -> (r: bool)
    ensures
        r == fetch_required_spec(*conf, local_seq(*local_files), github_files@),
{
    if *conf == ChainConfig::Local {
        return false;
    }
    let local = match local_files {
        None => {
            return true;
        },
        Some(l) => l,
    };
    assert(local_seq(*local_files) == Some(local@));
    let ghost m = local_map(local@);
    let ghost remote = github_files@;
    let file = "file".to_owned();
    let mut i: usize = 0;
    while i < github_files.len()
        invariant
            m == local_map(local@),
            remote == github_files@,
            file@ == "file"@,
            *conf != ChainConfig::Local,
            local_seq(*local_files) == Some(local@),
            i <= remote.len(),
            forall|k: int| 0 <= k < i && is_file(remote[k]) ==> m.contains_key(#[trigger] remote[k].name@) && m[remote[k].name@] == remote[k].sha@,
        decreases remote.len() - i,
    {
        let f = &github_files[i];
        if f.content_type == file {
            match local_sha(local, &f.name) {
                Some(s) => {
                    if *s != f.sha {
                        assert(is_file(remote[i as int]));
                        assert(file_stale(remote[i as int], m));
                        assert(fetch_required_spec(*conf, local_seq(*local_files), github_files@));
                        return true;
                    }
                },
                None => {
                    assert(is_file(remote[i as int]));
                    assert(file_stale(remote[i as int], m));
                    assert(fetch_required_spec(*conf, local_seq(*local_files), github_files@));
                    return true;
                },
            }
        }
        i += 1;
    }
    let ghost names = remote_file_names(remote);
    let ghost sq = local@.map_values(|p: (String, String)| (p.0@, p.1@));
    let mut j: usize = 0;
    while j < local.len()
        invariant
            m == local_map(local@),
            sq == local@.map_values(|p: (String, String)| (p.0@, p.1@)),
            remote == github_files@,
            file@ == "file"@,
            *conf != ChainConfig::Local,
            local_seq(*local_files) == Some(local@),
            names == remote_file_names(remote),
            j <= local@.len(),
            forall|k: int| 0 <= k < j ==> names.contains(#[trigger] sq[k].0),
        decreases local@.len() - j,
    {
        let name = &local[j].0;
        let mut k: usize = 0;
        let mut found = false;
        while k < github_files.len() && !found
            invariant
                k <= remote.len(),
                remote == github_files@,
                file@ == "file"@,
                found ==> names.contains(name@),
                !found ==> forall|x: int| 0 <= x < k ==> !#[trigger] file_named(remote[x], name@),
                names == remote_file_names(remote),
            decreases remote.len() - k,
        {
            if github_files[k].content_type == file && github_files[k].name == *name {
                assert(file_named(remote[k as int], name@));
                found = true;
            }
            k += 1;
        }
        if !found {
            proof {
                lemma_assoc_dom(sq, name@);
                assert(sq[j as int].0 == name@);
                assert(m.contains_key(name@));
                assert(!names.contains(name@)) by {
                    if names.contains(name@) {
                        let x = choose|x: int| 0 <= x < remote.len() && #[trigger] file_named(remote[x], name@);
                        assert(false);
                    }
                }
                assert(m.dom().contains(name@));
                assert(m.dom() != names);
                assert(fetch_required_spec(*conf, local_seq(*local_files), github_files@));
            }
            return true;
        }
        j += 1;
    }
    proof {
        assert forall|n: Seq<char>| m.dom().contains(n) <==> names.contains(n) by {
            lemma_assoc_dom(sq, n);
            if m.dom().contains(n) {
                let k = choose|k: int| 0 <= k < sq.len() && sq[k].0 == n;
                assert(names.contains(sq[k].0));
            }
            if names.contains(n) {
                let x = choose|x: int| 0 <= x < remote.len() && #[trigger] file_named(remote[x], n);
                assert(m.contains_key(remote[x].name@));
            }
        }
        assert(m.dom() =~= names);
    }
    false
}

} // verus!
