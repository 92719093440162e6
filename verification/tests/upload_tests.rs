use backend::response::{error_response, Body, Response};
use backend::upload::{
    file_extension, next_stored_file, stored_file, stored_name, StoredFile, Upload,
    MAX_NAME_BYTES,
};

const ID: &str = "123e4567-e89b-42d3-a456-426614174000";
const OTHER_ID: &str = "00000000-0000-4000-8000-000000000000";
const DIR: &str = "./uploads";
const BASE: &str = "https://monad.newjeans.cloud";

fn has_id_shape(id: &str) -> bool {
    let chars: Vec<char> = id.chars().collect();
    if chars.len() != 36 {
        return false;
    }
    let mut i: usize = 0;
    while i < 36 {
        let c = chars[i];
        let ok = if i == 8 || i == 13 || i == 18 || i == 23 {
            c == '-'
        } else {
            ('0'..='9').contains(&c) || ('a'..='f').contains(&c)
        };
        if !ok {
            return false;
        }
        i += 1;
    }
    chars[14] == '4' && (chars[19] == '8' || chars[19] == '9' || chars[19] == 'a' || chars[19] == 'b')
}

#[test]
fn extension_is_the_text_from_the_last_dot() {
    assert_eq!(file_extension("photo.png"), ".png");
    assert_eq!(file_extension("archive.tar.gz"), ".gz");
    assert_eq!(file_extension("a.b"), ".b");
    assert_eq!(file_extension("\u{e9}t\u{e9}.\u{e9}"), ".\u{e9}");
}

#[test]
fn extension_of_a_name_without_dot_is_empty() {
    assert_eq!(file_extension("README"), "");
    assert_eq!(file_extension(""), "");
    assert_eq!(file_extension("unknown"), "");
}

#[test]
fn extension_at_the_edges_of_a_name() {
    assert_eq!(file_extension("name."), ".");
    assert_eq!(file_extension(".profile"), ".profile");
    assert_eq!(file_extension("."), ".");
    assert_eq!(file_extension(".."), ".");
    assert_eq!(file_extension("dir.d/file"), ".d/file");
}

#[test]
fn stored_name_is_the_id_and_the_extension() {
    assert_eq!(stored_name(ID, Some("photo.png")), format!("{}.png", ID));
    assert_eq!(stored_name(ID, Some("archive.tar.gz")), format!("{}.gz", ID));
    assert_eq!(stored_name(ID, Some("My Holiday Photo.JPEG")), format!("{}.JPEG", ID));
}

#[test]
fn stored_name_without_extension_is_the_id() {
    assert_eq!(stored_name(ID, Some("README")), ID);
    assert_eq!(stored_name(ID, Some("")), ID);
}

#[test]
fn stored_name_of_a_nameless_part_is_the_id() {
    assert_eq!(stored_name(ID, None), ID);
    assert_eq!(stored_name(ID, None), stored_name(ID, Some("unknown")));
}

#[test]
fn stored_name_discards_the_name_the_client_gave() {
    assert_eq!(stored_name(ID, Some("a.txt")), stored_name(ID, Some("b.txt")));
    assert_eq!(stored_name(ID, Some("../../etc/passwd.txt")), format!("{}.txt", ID));
}

#[test]
fn stored_name_holds_no_separator() {
    assert_eq!(stored_name(ID, Some("x.a/b")), format!("{}.ab", ID));
    assert_eq!(stored_name(ID, Some("x.a\\b")), format!("{}.ab", ID));
    assert_eq!(stored_name(ID, Some("x./../../etc/passwd")), format!("{}.etcpasswd", ID));
    assert_eq!(stored_name("../x", Some("a.b")), "..x.b");
}

#[test]
fn stored_name_holds_none_of_the_removed_characters() {
    assert_eq!(stored_name(ID, Some("x.a?b<c>d:e*f|g\"h")), format!("{}.abcdefgh", ID));
    assert_eq!(stored_name(ID, Some("x.a\u{0}b\nc\u{1f}d")), format!("{}.abcd", ID));
    assert_eq!(stored_name(ID, Some("x.a\u{80}b\u{9f}c")), format!("{}.abc", ID));
    assert_eq!(stored_name(ID, Some("x.a\u{7f}b\u{a0}c")), format!("{}.a\u{7f}b\u{a0}c", ID));
    assert_eq!(stored_name(ID, Some("x.a b;c'd+e")), format!("{}.a b;c'd+e", ID));
}

#[test]
fn stored_name_keeps_a_dot_or_a_space_at_the_end() {
    assert_eq!(stored_name(ID, Some("name.")), format!("{}.", ID));
    assert_eq!(stored_name(ID, Some("name.txt ")), format!("{}.txt ", ID));
    assert_eq!(stored_name("con", Some("a.txt")), "con.txt");
}

#[test]
fn stored_name_of_dots_alone_is_empty() {
    assert_eq!(stored_name("", Some(".")), "");
    assert_eq!(stored_name(".", Some(".")), "");
    assert_eq!(stored_name("..", None), "");
    assert_eq!(stored_name("/", Some("a.")), "");
    assert_eq!(stored_name("", None), "");
    assert_eq!(stored_name("..", Some("a.b")), "...b");
}

#[test]
fn stored_name_is_cut_to_the_most_bytes() {
    assert_eq!(MAX_NAME_BYTES, 255);
    let long = format!("x.{}", "a".repeat(400));
    let name = stored_name(ID, Some(&long));
    assert_eq!(name.len(), 255);
    assert_eq!(name, format!("{}.{}", ID, "a".repeat(218)));
    let exact = format!("x.{}", "a".repeat(218));
    assert_eq!(stored_name(ID, Some(&exact)), format!("{}.{}", ID, "a".repeat(218)));
    let one_more = format!("x.{}", "a".repeat(219));
    assert_eq!(stored_name(ID, Some(&one_more)), format!("{}.{}", ID, "a".repeat(218)));
}

#[test]
fn stored_name_is_cut_between_characters() {
    let wide = format!("x.{}", "\u{e9}".repeat(200));
    let name = stored_name(ID, Some(&wide));
    assert_eq!(name, format!("{}.{}", ID, "\u{e9}".repeat(109)));
    assert_eq!(name.len(), 255);
    let shifted = format!("x.a{}", "\u{e9}".repeat(200));
    let name = stored_name(ID, Some(&shifted));
    assert_eq!(name, format!("{}.a{}", ID, "\u{e9}".repeat(108)));
    assert_eq!(name.len(), 254);
    let wider = format!("x.{}", "\u{1f600}".repeat(100));
    let name = stored_name(ID, Some(&wider));
    assert_eq!(name, format!("{}.{}", ID, "\u{1f600}".repeat(54)));
    assert_eq!(name.len(), 253);
}

#[test]
fn stored_name_is_cut_after_dots_were_looked_for() {
    let dots = ".".repeat(300);
    assert_eq!(stored_name("", Some(&dots)), "");
    let almost = format!("{}a", ".".repeat(300));
    assert_eq!(stored_name("", Some(&almost)), ".a");
    assert_eq!(stored_name(&dots, Some("x")), "");
    assert_eq!(stored_name(&almost, Some("x")), ".".repeat(255));
}

#[test]
fn stored_file_has_its_path_and_its_address() {
    let file = stored_file(ID, Some("photo.png"), DIR, BASE);
    assert_eq!(
        file,
        StoredFile {
            name: format!("{}.png", ID),
            path: format!("./uploads/{}.png", ID),
            url: format!("https://monad.newjeans.cloud/uploads/{}.png", ID),
        }
    );
}

#[test]
fn stored_file_takes_directory_and_base_as_they_are() {
    let file = stored_file(OTHER_ID, None, "/var/files", "http://localhost:10901");
    assert_eq!(file.name, OTHER_ID);
    assert_eq!(file.path, format!("/var/files/{}", OTHER_ID));
    assert_eq!(file.url, format!("http://localhost:10901/uploads/{}", OTHER_ID));
    let bare = stored_file(OTHER_ID, Some("a.b"), "", "");
    assert_eq!(bare.path, format!("/{}.b", OTHER_ID));
    assert_eq!(bare.url, format!("/uploads/{}.b", OTHER_ID));
}

#[test]
fn next_stored_file_draws_an_id_of_the_right_shape() {
    let mut k: usize = 0;
    while k < 200 {
        let file = next_stored_file(Some("photo.png"), DIR, BASE);
        assert_eq!(file.name.len(), 40);
        assert!(has_id_shape(&file.name[..36]), "{}", file.name);
        assert!(file.name.ends_with(".png"));
        assert_eq!(file, stored_file(&file.name[..36], Some("photo.png"), DIR, BASE));
        k += 1;
    }
}

#[test]
fn next_stored_file_without_extension_is_the_id_alone() {
    let file = next_stored_file(Some("README"), DIR, BASE);
    assert!(has_id_shape(&file.name), "{}", file.name);
    assert!(!file.name.contains('.'));
    assert_eq!(file.path, format!("./uploads/{}", file.name));
    assert_eq!(file.url, format!("https://monad.newjeans.cloud/uploads/{}", file.name));
    let nameless = next_stored_file(None, DIR, BASE);
    assert!(has_id_shape(&nameless.name), "{}", nameless.name);
}

#[test]
fn the_same_upload_twice_is_stored_under_two_names() {
    let first = next_stored_file(Some("photo.png"), DIR, BASE);
    let second = next_stored_file(Some("photo.png"), DIR, BASE);
    assert_ne!(first.name, second.name);
    assert_ne!(first.path, second.path);
    assert_ne!(first.url, second.url);
}

#[test]
fn upload_of_no_file_is_a_bad_request() {
    assert_eq!(
        Upload::begin(0),
        Err(Response {
            status: 400,
            body: Body::Error { error: "No files uploaded".to_string() },
        })
    );
}

#[test]
fn upload_of_files_begins_with_no_address() {
    assert_eq!(Upload::begin(1), Ok(Upload { urls: Vec::new() }));
    assert_eq!(Upload::begin(3), Ok(Upload { urls: Vec::new() }));
}

#[test]
fn upload_of_one_file_answers_with_its_address() {
    let mut upload = match Upload::begin(1) {
        Ok(upload) => upload,
        Err(r) => panic!("turned down: {:?}", r),
    };
    let file = stored_file(ID, Some("photo.png"), DIR, BASE);
    upload.saved(&file);
    let r = upload.finish();
    assert_eq!(
        r,
        Response {
            status: 200,
            body: Body::Url {
                url: format!("https://monad.newjeans.cloud/uploads/{}.png", ID),
            },
        }
    );
    match r.body {
        Body::Url { url } => assert!(url.ends_with(".png")),
        other => panic!("not one address: {:?}", other),
    }
}

#[test]
fn upload_of_several_files_answers_with_their_addresses_in_order() {
    let mut upload = match Upload::begin(2) {
        Ok(upload) => upload,
        Err(r) => panic!("turned down: {:?}", r),
    };
    upload.saved(&stored_file(ID, Some("b.txt"), DIR, BASE));
    upload.saved(&stored_file(OTHER_ID, Some("a.txt"), DIR, BASE));
    assert_eq!(
        upload.finish(),
        Response {
            status: 200,
            body: Body::Urls {
                urls: vec![
                    format!("https://monad.newjeans.cloud/uploads/{}.txt", ID),
                    format!("https://monad.newjeans.cloud/uploads/{}.txt", OTHER_ID),
                ],
            },
        }
    );
}

#[test]
fn upload_that_fails_answers_with_the_reason() {
    let mut upload = match Upload::begin(2) {
        Ok(upload) => upload,
        Err(r) => panic!("turned down: {:?}", r),
    };
    upload.saved(&stored_file(ID, Some("a.txt"), DIR, BASE));
    assert_eq!(
        upload.failed("No space left on device (os error 28)"),
        Response {
            status: 500,
            body: Body::Error {
                error: "Failed to save file: No space left on device (os error 28)".to_string(),
            },
        }
    );
    let first = match Upload::begin(1) {
        Ok(upload) => upload,
        Err(r) => panic!("turned down: {:?}", r),
    };
    assert_eq!(
        first.failed(""),
        Response { status: 500, body: Body::Error { error: "Failed to save file: ".to_string() } }
    );
}

#[test]
fn error_response_carries_status_and_message() {
    assert_eq!(
        error_response(418, "teapot"),
        Response { status: 418, body: Body::Error { error: "teapot".to_string() } }
    );
}
