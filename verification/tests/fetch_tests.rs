use audiocore::fetch::{audio_file_name, audio_storage_path, check_status, FetchError};

#[test]
fn file_name_from_sample_url() {
    let r = audio_file_name("https://download.samplelib.com/mp3/sample-3s.mp3");
    assert_eq!(r, Ok(b"sample-3s.mp3".to_vec()));
}

#[test]
fn url_without_path_segment_is_invalid() {
    assert_eq!(audio_file_name("https://example.com"), Err(FetchError::InvalidUrl));
}

#[test]
fn url_with_trailing_slash_is_invalid() {
    assert_eq!(audio_file_name("https://example.com/dir/"), Err(FetchError::InvalidUrl));
}

#[test]
fn unparsable_url_is_invalid() {
    assert_eq!(audio_file_name("not a url at all"), Err(FetchError::InvalidUrl));
}

#[test]
fn relative_url_is_invalid() {
    assert_eq!(audio_file_name("/just/a/path.mp3"), Err(FetchError::InvalidUrl));
}

#[test]
fn cannot_be_a_base_url_is_invalid() {
    assert_eq!(audio_file_name("mailto:someone@example.com"), Err(FetchError::InvalidUrl));
}

#[test]
fn query_and_fragment_are_not_part_of_the_name() {
    let r = audio_file_name("https://host.example/dir/track.mp3?session=1#t=3");
    assert_eq!(r, Ok(b"track.mp3".to_vec()));
}

#[test]
fn deep_path_keeps_only_the_last_segment() {
    let r = audio_file_name("https://host.example/a/b/c/d/song.ogg");
    assert_eq!(r, Ok(b"song.ogg".to_vec()));
}

#[test]
fn success_statuses_are_the_2xx_family() {
    assert_eq!(check_status(200), Ok(()));
    assert_eq!(check_status(204), Ok(()));
    assert_eq!(check_status(299), Ok(()));
}

#[test]
fn not_found_is_a_transfer_failure() {
    assert_eq!(check_status(404), Err(FetchError::TransferFailed(404)));
}

#[test]
fn other_non_2xx_statuses_are_transfer_failures() {
    assert_eq!(check_status(199), Err(FetchError::TransferFailed(199)));
    assert_eq!(check_status(301), Err(FetchError::TransferFailed(301)));
    assert_eq!(check_status(500), Err(FetchError::TransferFailed(500)));
}

#[test]
fn storage_path_joins_root_subdir_and_name() {
    let p = audio_storage_path(&b"/home/user/project".to_vec(), &b"sample-3s.mp3".to_vec());
    assert_eq!(p, b"/home/user/project/data/audio/sample-3s.mp3".to_vec());
}

#[test]
fn storage_path_with_empty_root() {
    let p = audio_storage_path(&Vec::new(), &b"a.mp3".to_vec());
    assert_eq!(p, b"/data/audio/a.mp3".to_vec());
}
