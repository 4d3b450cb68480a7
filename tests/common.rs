use stash::{respond, File, FileDesc, FileDescription, Response, StashError};

#[test]
fn response_helpers() {
    let ok = Response::ok();
    assert_eq!(ok, Response::Success("OK".to_string()));
    assert_eq!(ok.clone().unwrap(), "OK");
    assert_eq!(ok.res(), Ok("OK".to_string()));

    let e: Response<u32> = Response::Failure("boom".to_string());
    assert_eq!(e.clone().res(), Err("boom".to_string()));
    assert_eq!(e.err(), "boom");
}

#[test]
fn error_messages() {
    assert_eq!(StashError::NoSuchBlob.message(), "No such blob");
    assert_eq!(StashError::NoSuchFile.message(), "No such file");
    assert_eq!(StashError::InvalidTag(";notvalid".to_string()).message(), "Invalid tag ;notvalid");
    assert_eq!(StashError::NoTags.message(), "At least one tag is required");
    assert_eq!(StashError::FileAlreadyExists.message(), "File already exists");
    assert_eq!(StashError::OutOfBounds.message(), "Data index out of bounds");
    assert_eq!(StashError::Unauthorized.message(), "Unauthorized");
}

#[test]
fn respond_maps_errors() {
    let r: Response<u8> = respond(Ok(3));
    assert_eq!(r, Response::Success(3));
    let r: Response<u8> = respond(Err(StashError::NoSuchFile));
    assert_eq!(r, Response::Failure("No such file".to_string()));
}

#[test]
fn file_from_desc() {
    let d = FileDesc { name: "a".to_string(), size: 11, hash: "h".to_string(), created: 7 };
    let f = File::from(d.clone());
    assert_eq!(f, File { name: "a".to_string(), size: 11, hash: "h".to_string(), created: 7 });
    let fd = FileDescription::new(d, vec!["t1".to_string()]);
    assert_eq!(fd.size, 11);
    assert_eq!(fd.tags, vec!["t1".to_string()]);
    assert_eq!(fd.created, 7);
}
