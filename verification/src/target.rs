//! The target of a run: a URL, an address or a local repository.

use crate::text::{has_prefix, starts_with};
use crate::utils::{parse_host, url_host};
use std::path::PathBuf;
use vstd::prelude::*;
use vstd::string::StringExecFns;

verus! {

/// `std::path::PathBuf`, carried as it comes: nothing here looks into a
/// path.
#[verifier::external_type_specification]
#[verifier::external_body]
pub struct ExPathBuf(PathBuf);

/// What kind of thing is to be scanned.
#[derive(Debug)]
pub enum TargetType {
    Url(String),
    Ip(String),
    Repo(PathBuf),
}

/// A validated target. It is made once, from the command line.
#[derive(Debug)]
pub struct Target {
    pub target_type: TargetType,
}

/// Whether the text of a URL, where one is given, parses as a URL with a
/// host.
pub open spec fn names_host(url: Option<String>) -> bool {
    match url {
        Some(u) => url_host(u@) is Some,
        None => false,
    }
}

/// What classifying the arguments comes to. Exactly one of the three has to
/// be given. A URL has to begin with `http` and to parse as a URL with a
/// host; for an address the caller says whether it parses as one, for a
/// repository whether its path is an existing directory.
pub open spec fn classified(
    url: Option<String>,
    ip: Option<String>,
    repo: Option<PathBuf>,
    url_has_host: bool,
    ip_is_address: bool,
    repo_is_directory: bool,
    r: Result<Target, String>,
) -> bool {
    match (url, ip, repo) {
        (Some(u), None, None) => if has_prefix(u@, "http"@) && url_has_host {
            r == Ok::<Target, String>(Target { target_type: TargetType::Url(u) })
        } else {
            r matches Err(m) && m@ == "Invalid URL"@
        },
        (None, Some(i), None) => if ip_is_address {
            r == Ok::<Target, String>(Target { target_type: TargetType::Ip(i) })
        } else {
            r matches Err(m) && m@ == "Invalid IP address"@
        },
        (None, None, Some(p)) => if repo_is_directory {
            r == Ok::<Target, String>(Target { target_type: TargetType::Repo(p) })
        } else {
            r matches Err(m) && m@ == "Invalid or non-existent repo path"@
        },
        _ => r matches Err(m) && m@ == "Provide exactly one of --url, --ip, or --repo"@,
    }
}

impl Target {
    /// Classifies arguments of which every check was made: `url_has_host`
    /// says whether the URL's text parses as a URL with a host.
    pub fn from_checked_args(
        url: Option<String>,
        ip: Option<String>,
        repo: Option<PathBuf>,
        url_has_host: bool,
        ip_is_address: bool,
        repo_is_directory: bool,
    ) -> (r: Result<Target, String>)
        ensures
            classified(url, ip, repo, url_has_host, ip_is_address, repo_is_directory, r),
    {
        match (url, ip, repo) {
            (Some(u), None, None) => {
                if starts_with(u.as_str(), "http") && url_has_host {
                    Ok(Target { target_type: TargetType::Url(u) })
                } else {
                    Err(String::from_str("Invalid URL"))
                }
            },
            (None, Some(i), None) => {
                if ip_is_address {
                    Ok(Target { target_type: TargetType::Ip(i) })
                } else {
                    Err(String::from_str("Invalid IP address"))
                }
            },
            (None, None, Some(p)) => {
                if repo_is_directory {
                    Ok(Target { target_type: TargetType::Repo(p) })
                } else {
                    Err(String::from_str("Invalid or non-existent repo path"))
                }
            },
            _ => Err(String::from_str("Provide exactly one of --url, --ip, or --repo")),
        }
    }

    /// Classifies the command line's arguments into a target, or says why
    /// they name none. A URL that is malformed, be it that it does not begin
    /// with `http` or that it does not parse as a URL with a host, is
    /// rejected.
    pub fn new_from_args(
        url: Option<String>,
        ip: Option<String>,
        repo: Option<PathBuf>,
        ip_is_address: bool,
        repo_is_directory: bool,
    ) -> (r: Result<Target, String>)
        ensures
            classified(url, ip, repo, names_host(url), ip_is_address, repo_is_directory, r),
    {
        let url_has_host = match &url {
            Some(u) => parse_host(u.as_str()).is_some(),
            None => false,
        };
        Target::from_checked_args(url, ip, repo, url_has_host, ip_is_address, repo_is_directory)
    }
}

} // verus!
