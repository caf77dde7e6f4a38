use labworks::location::{parse_location, LocationError, LocationType};

fn ftp_fields(l: &LocationType) -> (String, String, String, String) {
    match l {
        LocationType::Ftp { user, password, url, path } => (user.clone(), password.clone(), url.clone(), path.clone()),
        other => panic!("not ftp: {:?}", other),
    }
}

#[test]
fn ftp_descriptor() {
    let l = parse_location("ftp:user:password@URL/a.b.c").unwrap();
    assert_eq!(
        ftp_fields(&l),
        (String::from("user"), String::from("password"), String::from("URL"), String::from("a.b.c"))
    );
}

#[test]
fn ftp_path_keeps_later_slashes_and_url_keeps_colons() {
    let l = parse_location("ftp:me:pw@host:21/dir/sub/f").unwrap();
    assert_eq!(
        ftp_fields(&l),
        (String::from("me"), String::from("pw"), String::from("host:21"), String::from("dir/sub/f"))
    );
}

#[test]
fn zip_and_folder_descriptors() {
    match parse_location("zip:C:/abc/d.zip").unwrap() {
        LocationType::Zip(p) => assert_eq!(p, "C:/abc/d.zip"),
        other => panic!("{:?}", other),
    }
    match parse_location("folder:C:/aaa").unwrap() {
        LocationType::Folder(p) => assert_eq!(p, "C:/aaa"),
        other => panic!("{:?}", other),
    }
    match parse_location("folder:").unwrap() {
        LocationType::Folder(p) => assert_eq!(p, ""),
        other => panic!("{:?}", other),
    }
}

#[test]
fn refusals() {
    assert!(matches!(parse_location("nothing"), Err(LocationError::InvalidFormat)));
    assert!(matches!(parse_location("ftp:userpw/x"), Err(LocationError::InvalidFtpFormat)));
    assert!(matches!(parse_location("ftp:user@host/x"), Err(LocationError::InvalidFtpCredentials)));
    assert!(matches!(parse_location("ftp:a:b:c@host/x"), Err(LocationError::InvalidFtpCredentials)));
    assert!(matches!(parse_location("ftp:a:b@host"), Err(LocationError::InvalidFtpPath)));
    match parse_location("FTP:a:b@h/p") {
        Err(LocationError::UnknownType(kind)) => assert_eq!(kind, "FTP"),
        other => panic!("{:?}", other),
    }
}

#[test]
fn refusal_messages() {
    let input = "ftp:a:b@host";
    let e = parse_location(input).unwrap_err();
    assert_eq!(e.message(input), "Invalid Ftp path: ftp:a:b@host");
    let e = parse_location("bad").unwrap_err();
    assert_eq!(e.message("bad"), "Invalid format: bad");
    let e = parse_location("web:x").unwrap_err();
    assert_eq!(e.message("web:x"), "Unknown location type: web");
    let e = parse_location("ftp:x").unwrap_err();
    assert_eq!(e.message("ftp:x"), "Invalid Ftp format: ftp:x");
    let e = parse_location("ftp:x@h/p").unwrap_err();
    assert_eq!(e.message("ftp:x@h/p"), "Invalid Ftp credentials: ftp:x@h/p");
}

#[test]
fn parsed_descriptors_rebuild_their_text() {
    for input in ["ftp:u:p@h/x/y", "zip:a:b", "folder:/tmp/x", "ftp::@/"] {
        let text = match parse_location(input).unwrap() {
            LocationType::Ftp { user, password, url, path } => format!("ftp:{}:{}@{}/{}", user, password, url, path),
            LocationType::Zip(p) => format!("zip:{}", p),
            LocationType::Folder(p) => format!("folder:{}", p),
        };
        assert_eq!(text, input);
    }
}

#[test]
fn written_locations_read_back() {
    let text = format!("ftp:{}:{}@{}/{}", "bob", "s3cret", "ftp.example.com:2121", "dir/with:colon@at");
    let l = parse_location(&text).unwrap();
    assert_eq!(
        ftp_fields(&l),
        (
            String::from("bob"),
            String::from("s3cret"),
            String::from("ftp.example.com:2121"),
            String::from("dir/with:colon@at")
        )
    );
    match parse_location("zip:has:colons@and/slashes").unwrap() {
        LocationType::Zip(p) => assert_eq!(p, "has:colons@and/slashes"),
        other => panic!("{:?}", other),
    }
}
