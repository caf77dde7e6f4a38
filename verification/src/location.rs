//! Location descriptors of the synchroniser: `ftp:user:password@host/path`,
//! `zip:<path>` and `folder:<path>`.

use vstd::prelude::*;
use crate::text::{chars_of, range_is, split_once, split_once_at, string_from_range};
use vstd::string::StringExecFns;

verus! {

broadcast use vstd::string::group_string_axioms;

/// A place to synchronise.
#[derive(Debug)]
pub enum LocationType {
    Ftp { user: String, password: String, url: String, path: String },
    Zip(String),
    Folder(String),
}

/// A location, as character sequences.
pub ghost enum LocationSpec {
    Ftp { user: Seq<char>, password: Seq<char>, url: Seq<char>, path: Seq<char> },
    Zip(Seq<char>),
    Folder(Seq<char>),
}

impl View for LocationType {
    type V = LocationSpec;

    open spec fn view(&self) -> LocationSpec {
        match self {
            LocationType::Ftp { user, password, url, path } => LocationSpec::Ftp {
                user: user@,
                password: password@,
                url: url@,
                path: path@,
            },
            LocationType::Zip(p) => LocationSpec::Zip(p@),
            LocationType::Folder(p) => LocationSpec::Folder(p@),
        }
    }
}

/// Why a location descriptor was refused.
#[derive(Debug)]
pub enum LocationError {
    /// No `:` after the kind.
    InvalidFormat,
    /// An `ftp` descriptor without `@`.
    InvalidFtpFormat,
    /// The part before `@` is not exactly `user:password`.
    InvalidFtpCredentials,
    /// The part after `@` has no `/`.
    InvalidFtpPath,
    /// The kind is not `ftp`, `zip` or `folder`; it is carried along.
    UnknownType(String),
}

/// A refusal, as character sequences.
pub ghost enum LocationErrorSpec {
    InvalidFormat,
    InvalidFtpFormat,
    InvalidFtpCredentials,
    InvalidFtpPath,
    UnknownType(Seq<char>),
}

impl View for LocationError {
    type V = LocationErrorSpec;

    open spec fn view(&self) -> LocationErrorSpec {
        match self {
            LocationError::InvalidFormat => LocationErrorSpec::InvalidFormat,
            LocationError::InvalidFtpFormat => LocationErrorSpec::InvalidFtpFormat,
            LocationError::InvalidFtpCredentials => LocationErrorSpec::InvalidFtpCredentials,
            LocationError::InvalidFtpPath => LocationErrorSpec::InvalidFtpPath,
            LocationError::UnknownType(k) => LocationErrorSpec::UnknownType(k@),
        }
    }
}

/// What a descriptor denotes. The kind is everything before the first `:`.
/// For `ftp`, the rest is cut at its first `@`; the part before must hold
/// exactly one `:` (user before it, password after it); the part after is cut
/// at its first `/` into host and path.
pub open spec fn spec_parse_location(s: Seq<char>) -> Result<LocationSpec, LocationErrorSpec> {
    match split_once(s, ':') {
        None => Err(LocationErrorSpec::InvalidFormat),
        Some((kind, rest)) => if kind == "ftp"@ {
            match split_once(rest, '@') {
                None => Err(LocationErrorSpec::InvalidFtpFormat),
                Some((credentials, place)) => match split_once(credentials, ':') {
                    None => Err(LocationErrorSpec::InvalidFtpCredentials),
                    Some((user, password)) => if password.contains(':') {
                        Err(LocationErrorSpec::InvalidFtpCredentials)
                    } else {
                        match split_once(place, '/') {
                            None => Err(LocationErrorSpec::InvalidFtpPath),
                            Some((url, path)) => Ok(
                                LocationSpec::Ftp { user, password, url, path },
                            ),
                        }
                    },
                },
            }
        } else if kind == "zip"@ {
            Ok(LocationSpec::Zip(rest))
        } else if kind == "folder"@ {
            Ok(LocationSpec::Folder(rest))
        } else {
            Err(LocationErrorSpec::UnknownType(kind))
        },
    }
}

/// The descriptor a location is written as.
pub open spec fn spec_location_text(l: LocationSpec) -> Seq<char> {
    match l {
        LocationSpec::Ftp { user, password, url, path } => "ftp:"@ + user + ":"@ + password + "@"@ + url + "/"@ + path,
        LocationSpec::Zip(p) => "zip:"@ + p,
        LocationSpec::Folder(p) => "folder:"@ + p,
    }
}

/// A descriptor that reads is exactly the text of what it reads as: parsing
/// loses nothing, and the user name holds no `:` and the host no `/`.
pub proof fn lemma_parse_location_round_trip(s: Seq<char>)
    requires
        spec_parse_location(s) is Ok,
    ensures
        spec_location_text(spec_parse_location(s)->Ok_0) == s,
        spec_parse_location(s)->Ok_0 matches LocationSpec::Ftp { user, password, url, path } ==> !user.contains(
            ':',
        ) && !password.contains(':') && !url.contains('/'),
{
    reveal_strlit("ftp:");
    reveal_strlit("zip:");
    reveal_strlit("folder:");
    reveal_strlit(":");
    reveal_strlit("@");
    reveal_strlit("/");
    reveal_strlit("ftp");
    reveal_strlit("zip");
    reveal_strlit("folder");
    crate::text::lemma_split_once_rejoin(s, ':');
    let (kind, rest) = split_once(s, ':')->0;
    if kind == "ftp"@ {
        crate::text::lemma_split_once_rejoin(rest, '@');
        let (credentials, place) = split_once(rest, '@')->0;
        crate::text::lemma_split_once_rejoin(credentials, ':');
        crate::text::lemma_split_once_rejoin(place, '/');
        let (user, password) = split_once(credentials, ':')->0;
        let (url, path) = split_once(place, '/')->0;
        assert(s =~= "ftp:"@ + user + ":"@ + password + "@"@ + url + "/"@ + path);
    } else if kind == "zip"@ {
        assert(s =~= "zip:"@ + rest);
    } else {
        assert(s =~= "folder:"@ + rest);
    }
}

/// Writing a location as a descriptor and reading it back gives the same
/// location, provided the user and password hold no `:` or `@` and the host
/// no `/` (for `zip` and `folder` nothing is required).
pub proof fn lemma_location_text_reads_back(l: LocationSpec)
    requires
        l matches LocationSpec::Ftp { user, password, url, path } ==> !user.contains(':') && !user.contains('@')
            && !password.contains(':') && !password.contains('@') && !url.contains('/'),
    ensures
        spec_parse_location(spec_location_text(l)) == Ok::<LocationSpec, LocationErrorSpec>(l),
{
    reveal_strlit("ftp:");
    reveal_strlit("zip:");
    reveal_strlit("folder:");
    reveal_strlit(":");
    reveal_strlit("@");
    reveal_strlit("/");
    reveal_strlit("ftp");
    reveal_strlit("zip");
    reveal_strlit("folder");
    let s = spec_location_text(l);
    match l {
        LocationSpec::Ftp { user, password, url, path } => {
            let rest = user + ":"@ + password + "@"@ + url + "/"@ + path;
            assert(s =~= "ftp"@ + seq![':'] + rest);
            assert(!"ftp"@.contains(':')) by {
                if "ftp"@.contains(':') {
                    let k = choose|k: int| 0 <= k < "ftp"@.len() && "ftp"@[k] == ':';
                }
            }
            crate::text::lemma_split_once_concat("ftp"@, ':', rest);
            let credentials = user + ":"@ + password;
            let place = url + "/"@ + path;
            assert(rest =~= credentials + seq!['@'] + place);
            assert(!credentials.contains('@')) by {
                if credentials.contains('@') {
                    let k = choose|k: int| 0 <= k < credentials.len() && credentials[k] == '@';
                    if k < user.len() {
                        assert(user[k] == '@');
                    } else if k > user.len() {
                        assert(password[k - user.len() - 1] == '@');
                    }
                }
            }
            crate::text::lemma_split_once_concat(credentials, '@', place);
            assert(credentials =~= user + seq![':'] + password);
            crate::text::lemma_split_once_concat(user, ':', password);
            assert(place =~= url + seq!['/'] + path);
            crate::text::lemma_split_once_concat(url, '/', path);
        },
        LocationSpec::Zip(p) => {
            assert(s =~= "zip"@ + seq![':'] + p);
            assert(!"zip"@.contains(':')) by {
                if "zip"@.contains(':') {
                    let k = choose|k: int| 0 <= k < "zip"@.len() && "zip"@[k] == ':';
                }
            }
            crate::text::lemma_split_once_concat("zip"@, ':', p);
            assert("zip"@ != "ftp"@) by {
                assert("zip"@[0] != "ftp"@[0]);
            }
        },
        LocationSpec::Folder(p) => {
            assert(s =~= "folder"@ + seq![':'] + p);
            assert(!"folder"@.contains(':')) by {
                if "folder"@.contains(':') {
                    let k = choose|k: int| 0 <= k < "folder"@.len() && "folder"@[k] == ':';
                }
            }
            crate::text::lemma_split_once_concat("folder"@, ':', p);
            assert("folder"@ != "ftp"@ && "folder"@ != "zip"@) by {
                assert("folder"@.len() != "ftp"@.len());
            }
        },
    }
}

/// A parse result, as character sequences.
pub open spec fn location_result_view(r: Result<LocationType, LocationError>) -> Result<LocationSpec, LocationErrorSpec> {
    match r {
        Ok(l) => Ok(l@),
        Err(e) => Err(e@),
    }
}

/// Reads a location descriptor.
pub fn parse_location(input: &str) -> (r: Result<LocationType, LocationError>)
    ensures
        location_result_view(r) == spec_parse_location(input@),
{
    let v = chars_of(input);
    let n = v.len();
    let ghost s = v@;
    assert(s.subrange(0, n as int) =~= s);
    let colon = match split_once_at(&v, 0, n, ':') {
        None => return Err(LocationError::InvalidFormat),
        Some(i) => i,
    };
    let ghost kind = s.subrange(0, colon as int);
    let ghost rest = s.subrange(colon + 1, n as int);
    if range_is(&v, 0, colon, "ftp") {
        let at = match split_once_at(&v, colon + 1, n, '@') {
            None => return Err(LocationError::InvalidFtpFormat),
            Some(i) => i,
        };
        assert(s.subrange(colon + 1, at as int) =~= rest.take(at - colon - 1));
        let sep = match split_once_at(&v, colon + 1, at, ':') {
            None => return Err(LocationError::InvalidFtpCredentials),
            Some(i) => i,
        };
        if let Some(_) = split_once_at(&v, sep + 1, at, ':') {
            return Err(LocationError::InvalidFtpCredentials);
        }
        let slash = match split_once_at(&v, at + 1, n, '/') {
            None => return Err(LocationError::InvalidFtpPath),
            Some(i) => i,
        };
        let user = string_from_range(&v, colon + 1, sep);
        let password = string_from_range(&v, sep + 1, at);
        let url = string_from_range(&v, at + 1, slash);
        let path = string_from_range(&v, slash + 1, n);
        Ok(LocationType::Ftp { user, password, url, path })
    } else if range_is(&v, 0, colon, "zip") {
        Ok(LocationType::Zip(string_from_range(&v, colon + 1, n)))
    } else if range_is(&v, 0, colon, "folder") {
        Ok(LocationType::Folder(string_from_range(&v, colon + 1, n)))
    } else {
        Err(LocationError::UnknownType(string_from_range(&v, 0, colon)))
    }
}


/// The report for a refused descriptor `input`.
pub open spec fn spec_location_error_message(e: LocationErrorSpec, input: Seq<char>) -> Seq<char> {
    match e {
        LocationErrorSpec::InvalidFormat => "Invalid format: "@ + input,
        LocationErrorSpec::InvalidFtpFormat => "Invalid Ftp format: "@ + input,
        LocationErrorSpec::InvalidFtpCredentials => "Invalid Ftp credentials: "@ + input,
        LocationErrorSpec::InvalidFtpPath => "Invalid Ftp path: "@ + input,
        LocationErrorSpec::UnknownType(kind) => "Unknown location type: "@ + kind,
    }
}

impl LocationError {
    /// The report for this refusal of the descriptor `input`.
    pub fn message(&self, input: &str) -> (r: String)
        ensures
            r@ == spec_location_error_message(self@, input@),
    {
        let mut r;
        match self {
            LocationError::InvalidFormat => {
                r = "Invalid format: ".to_owned();
                r.append(input);
            },
            LocationError::InvalidFtpFormat => {
                r = "Invalid Ftp format: ".to_owned();
                r.append(input);
            },
            LocationError::InvalidFtpCredentials => {
                r = "Invalid Ftp credentials: ".to_owned();
                r.append(input);
            },
            LocationError::InvalidFtpPath => {
                r = "Invalid Ftp path: ".to_owned();
                r.append(input);
            },
            LocationError::UnknownType(kind) => {
                r = "Unknown location type: ".to_owned();
                r.append(kind.as_str());
            },
        }
        r
    }
}

} // verus!
