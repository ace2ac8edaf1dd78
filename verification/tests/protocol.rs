use scope_arena::protocol::asset_gate;
use scope_arena::protocol::asset_response;
use scope_arena::protocol::choose_mime;
use scope_arena::protocol::desktop_handler;
use scope_arena::protocol::desktop_handler_with;
use scope_arena::protocol::file_gate;
use scope_arena::protocol::get_mime_by_ext;
use scope_arena::protocol::get_mime_from_path;
use scope_arena::protocol::index_page;
use scope_arena::protocol::looks_up_bundle;
use scope_arena::protocol::module_loader;
use scope_arena::protocol::module_loader_with;
use scope_arena::protocol::pick_asset_root;
use scope_arena::protocol::root_gate;
use scope_arena::protocol::sniffable;
use scope_arena::protocol::sniffs_content;
use scope_arena::protocol::Handled;
use scope_arena::protocol::DEFAULT_INDEX;
use scope_arena::text::chars_of;
use scope_arena::text::ends_with;
use scope_arena::text::last_segment;
use scope_arena::text::matches_at;
use scope_arena::text::replace;
use scope_arena::text::same_text;
use scope_arena::text::trim_start_matches;

const PNG: [u8; 12] = [0x89, b'P', b'N', b'G', 0x0d, 0x0a, 0x1a, 0x0a, 0, 0, 0, 0x0d];

#[test]
fn mime_by_known_endings() {
    assert_eq!(get_mime_by_ext("a.bin"), "application/octet-stream");
    assert_eq!(get_mime_by_ext("a.css"), "text/css");
    assert_eq!(get_mime_by_ext("a.csv"), "text/csv");
    assert_eq!(get_mime_by_ext("a.html"), "text/html");
    assert_eq!(get_mime_by_ext("a.ico"), "image/vnd.microsoft.icon");
    assert_eq!(get_mime_by_ext("a.js"), "text/javascript");
    assert_eq!(get_mime_by_ext("a.json"), "application/json");
    assert_eq!(get_mime_by_ext("a.jsonld"), "application/ld+json");
    assert_eq!(get_mime_by_ext("a.mjs"), "text/javascript");
    assert_eq!(get_mime_by_ext("a.rtf"), "application/rtf");
    assert_eq!(get_mime_by_ext("a.svg"), "image/svg+xml");
    assert_eq!(get_mime_by_ext("a.mp4"), "video/mp4");
}

#[test]
fn mime_by_the_last_segment_only() {
    assert_eq!(get_mime_by_ext("assets/site.min.css"), "text/css");
    assert_eq!(get_mime_by_ext("archive.css.bin"), "application/octet-stream");
    assert_eq!(get_mime_by_ext("css"), "text/css");
    assert_eq!(get_mime_by_ext(".json"), "application/json");
    assert_eq!(get_mime_by_ext("dir.d/readme"), "text/html");
}

#[test]
fn mime_of_an_unknown_ending_is_a_page() {
    assert_eq!(get_mime_by_ext("dioxuslabs.app"), "text/html");
    assert_eq!(get_mime_by_ext("hello.com"), "text/html");
    assert_eq!(get_mime_by_ext("no-dots"), "text/html");
    assert_eq!(get_mime_by_ext(""), "text/html");
    assert_eq!(get_mime_by_ext("trailing."), "text/html");
    assert_eq!(get_mime_by_ext("a.CSS"), "text/html");
    assert_eq!(get_mime_by_ext("pi\u{e8}ce.cs\u{e8}"), "text/html");
}

#[test]
fn svg_paths_are_never_sniffed() {
    assert!(!sniffs_content("logo.svg"));
    assert!(sniffs_content("logo.png"));
    assert!(sniffs_content("svg"));
    assert_eq!(choose_mime("logo.svg", Some("image/png")), "image/svg+xml");
    assert_eq!(choose_mime("logo.svg", None), "image/svg+xml");
    assert_eq!(get_mime_from_path("logo.svg", &PNG), "image/svg+xml");
}

#[test]
fn the_content_decides_unless_it_is_plain_text() {
    assert_eq!(choose_mime("photo.css", Some("image/png")), "image/png");
    assert_eq!(choose_mime("style.css", Some("text/plain")), "text/css");
    assert_eq!(choose_mime("notes", Some("text/plain")), "text/html");
    assert_eq!(choose_mime("data.json", None), "application/json");
    assert_eq!(choose_mime("data", None), "text/html");
}

#[test]
fn the_first_bytes_are_sniffed() {
    assert_eq!(get_mime_from_path("photo.bin", &PNG), "image/png");
    assert_eq!(get_mime_from_path("photo", &[0xff, 0xd8, 0xff, 0xaa]), "image/jpeg");
    assert_eq!(get_mime_from_path("page.css", b"body { }"), "text/css");
    assert_eq!(get_mime_from_path("page.css", &[]), "text/css");
    assert_eq!(get_mime_from_path("unknown", &[1, 2, 3]), "text/html");
}

#[test]
fn content_that_the_sniffer_cannot_take_is_not_sniffed() {
    assert!(sniffable(b""));
    assert!(sniffable(b"abc"));
    assert!(sniffable(b" \t\r\n\x0c"));
    assert!(sniffable(b"  <?xml"));
    assert!(!sniffable(b"a"));
    assert!(!sniffable(b"ab"));
    assert!(!sniffable(b"  ab"));
    assert!(!sniffable(b"\n\n\nz"));
    assert!(sniffable(&[0xef, 0xbb, 0xbf]));
    assert!(sniffable(&[0xef, 0xbb, 0xbf, b'<', b'a', b'>']));
    assert!(!sniffable(&[0xef, 0xbb, 0xbf, b'a']));
    assert!(!sniffable(&[0xef, 0xbb, 0xbf, 0xef, 0xbb, 0xbf, b'a', b'b']));
    assert!(!sniffable(&[0xfe, 0xff, b'a']));
    assert!(!sniffable(&[0xff, 0xfe, 0, 0]));
    assert!(sniffable(&[0xfe, 0xff, b'a', b'b', b'c']));
    assert!(sniffable(&[0xff, 0xfe, 0xfe, 0xff, 0xef, 0xbb, 0xbf]));
    assert!(sniffable(&[0xef, 0xbb, 0x20]));
    assert!(!sniffable(&[0x20, 0xef, 0xbb]));
    assert_eq!(get_mime_from_path("a.css", b"a"), "text/css");
    assert_eq!(get_mime_from_path("a.json", b"{}"), "application/json");
    assert_eq!(get_mime_from_path("BM", b"BM"), "text/html");
    assert_eq!(get_mime_from_path("a.mp4", &[0xef, 0xbb, 0xbf, b'a']), "video/mp4");
}

#[test]
fn short_and_odd_content_is_sniffed_to_the_end() {
    let samples: [&[u8]; 8] = [
        &PNG,
        &[0xff, 0xd8, 0xff, 0xe0, 0, 16, b'J', b'F', b'I', b'F'],
        b"PK\x03\x04\x14\x00\x06\x00",
        b"%PDF-1.7 trailer",
        b"\x00\x00\x00\x18ftypmp42\x00\x00\x00\x00mp42isom",
        b"<?xml version=\"1.0\"?><svg/>",
        b"<!DOCTYPE html><html></html>",
        b"#!/bin/sh\necho",
    ];
    for sample in samples {
        for len in 0..=sample.len() {
            let mime = get_mime_from_path("file", &sample[..len]);
            assert!(!mime.is_empty());
        }
    }
    assert_eq!(get_mime_from_path("file", b"%PDF-1.7 trailer"), "application/pdf");
    assert_eq!(get_mime_from_path("file", b"<?xml version=\"1.0\"?><svg/>"), "text/xml");
    assert_eq!(get_mime_from_path("file", b"   <!DOCTYPE html><html></html>"), "text/html");
    assert_eq!(get_mime_from_path("file.css", b"#!/bin/sh\necho"), "text/x-shellscript");
}

#[test]
fn the_loader_names_the_root_element() {
    assert_eq!(
        module_loader_with("SCRIPT", "main"),
        "\n<script>\n    SCRIPT\n\n    let rootname = \"main\";\n    let root = window.document.getElementById(rootname);\n    if (root != null) {\n        window.interpreter = new Interpreter(root);\n        window.ipc.postMessage(serializeIpcMessage(\"initialize\"));\n    }\n</script>\n"
    );
    assert_eq!(module_loader_with("", ""), module_loader_with("", "x").replace("\"x\"", "\"\""));
}

#[test]
fn the_loader_carries_the_interpreter() {
    let script = dioxus_interpreter_js::INTERPRETER_JS;
    assert!(!script.is_empty());
    let markup = module_loader("app-root");
    assert_eq!(markup, module_loader_with(script, "app-root"));
    assert!(markup.contains(script));
    assert!(markup.contains("let rootname = \"app-root\";"));
}

#[test]
fn the_default_index_gets_head_and_loader() {
    let page = index_page("JS", None, None, "main");
    let loader = module_loader_with("JS", "main");
    assert_eq!(page, DEFAULT_INDEX.replace("<!-- MODULE LOADER -->", &loader));
    assert!(page.contains("<!-- CUSTOM HEAD -->"));
    let page = index_page("JS", Some("<title>mine</title>".to_string()), None, "main");
    assert_eq!(
        page,
        DEFAULT_INDEX
            .replace("<!-- CUSTOM HEAD -->", "<title>mine</title>")
            .replace("<!-- MODULE LOADER -->", &loader)
    );
    assert!(!page.contains("<!-- CUSTOM HEAD -->"));
    assert!(!page.contains("<!-- MODULE LOADER -->"));
}

#[test]
fn a_custom_index_gets_the_loader_before_the_end_of_its_body() {
    let index = "<html><body><div id=\"app\"></div></body></html>".to_string();
    let page = index_page("JS", Some("ignored".to_string()), Some(index), "app");
    let loader = module_loader_with("JS", "app");
    assert_eq!(page, format!("<html><body><div id=\"app\"></div>{}</body></html>", loader));
    let bare = index_page("JS", None, Some("<p>no body tag</p>".to_string()), "app");
    assert_eq!(bare, "<p>no body tag</p>");
}

fn respond(step: Handled) -> (u16, Option<&'static str>, Vec<u8>) {
    match step {
        Handled::Respond(response) => (response.status, response.content_type, response.body),
        Handled::Asset(path) => panic!("asked for the asset {}", path),
    }
}

fn asset(step: Handled) -> String {
    match step {
        Handled::Asset(path) => path,
        Handled::Respond(response) => panic!("answered with {}", response.status),
    }
}

#[test]
fn the_index_is_served_for_the_empty_path() {
    for uri in ["dioxus://index.html/", "dioxus://", "", "index.html/", "dioxus://index.html/index.html/"] {
        let (status, content_type, body) = respond(desktop_handler_with("JS", uri, None, None, "main"));
        assert_eq!(status, 200);
        assert_eq!(content_type, Some("text/html"));
        assert_eq!(body, index_page("JS", None, None, "main").into_bytes());
    }
}

#[test]
fn the_index_uses_what_the_application_brings() {
    let index = "<body>\u{e9}t\u{e9}</body>".to_string();
    let (status, content_type, body) = respond(desktop_handler_with(
        "JS",
        "dioxus://index.html/",
        Some("<style></style>".to_string()),
        Some(index.clone()),
        "main",
    ));
    assert_eq!((status, content_type), (200, Some("text/html")));
    assert_eq!(body, index_page("JS", None, Some(index), "main").into_bytes());
    let (_, _, body) = respond(desktop_handler_with(
        "JS",
        "dioxus://index.html/",
        Some("<style></style>".to_string()),
        None,
        "main",
    ));
    assert_eq!(body, index_page("JS", Some("<style></style>".to_string()), None, "main").into_bytes());
}

#[test]
fn the_interpreter_is_served_as_a_script() {
    let (status, content_type, body) =
        respond(desktop_handler_with("let x = 1;", "dioxus://index.html/index.js", None, None, "main"));
    assert_eq!((status, content_type), (200, Some("text/javascript")));
    assert_eq!(body, b"let x = 1;".to_vec());
    let (status, content_type, body) = respond(desktop_handler("dioxus://index.js", None, None, "main"));
    assert_eq!((status, content_type), (200, Some("text/javascript")));
    assert_eq!(body, dioxus_interpreter_js::INTERPRETER_JS.as_bytes().to_vec());
}

#[test]
fn the_handler_with_the_interpreter_serves_the_index() {
    let (status, content_type, body) = respond(desktop_handler("dioxus://index.html/", None, None, "main"));
    assert_eq!((status, content_type), (200, Some("text/html")));
    assert_eq!(
        body,
        index_page(dioxus_interpreter_js::INTERPRETER_JS, None, None, "main").into_bytes()
    );
}

#[test]
fn any_other_path_is_an_asset() {
    assert_eq!(asset(desktop_handler("dioxus://index.html/assets/logo.png", None, None, "main")), "assets/logo.png");
    assert_eq!(asset(desktop_handler("dioxus://style.css", None, None, "main")), "style.css");
    assert_eq!(asset(desktop_handler("index.html/index.html/a/b.js", None, None, "m")), "a/b.js");
    assert_eq!(asset(desktop_handler("dioxus://index.html", None, None, "main")), "index.html");
    assert_eq!(asset(desktop_handler("dioxus://index.js/", None, None, "main")), "index.js/");
    assert_eq!(asset(desktop_handler("dioxus://a/dioxus://b", None, None, "main")), "a/b");
    assert_eq!(asset(desktop_handler("dioxus://\u{fc}ber/index.html/x", None, None, "main")), "\u{fc}ber/index.html/x");
}

#[test]
fn the_asset_root_is_the_given_one_then_the_bundle() {
    assert_eq!(pick_asset_root(Some("given"), false, Some("bundle"), "."), "given");
    assert_eq!(pick_asset_root(Some("given"), true, None, "."), "given");
    assert_eq!(pick_asset_root(None, false, Some("bundle"), "."), "bundle");
    assert_eq!(pick_asset_root(None, true, Some("bundle"), "."), ".");
    assert_eq!(pick_asset_root(None, false, None, "."), ".");
    assert_eq!(pick_asset_root(None, true, None, "."), ".");
}

#[test]
fn the_bundle_is_asked_only_without_a_root_and_without_cargo() {
    assert!(looks_up_bundle(&None::<&str>, false));
    assert!(!looks_up_bundle(&None::<&str>, true));
    assert!(!looks_up_bundle(&Some("given"), false));
    assert!(!looks_up_bundle(&Some("given"), true));
}

#[test]
fn the_gate_refuses_what_leaves_the_root_or_is_missing() {
    let forbidden = asset_gate(false, true).unwrap();
    assert_eq!((forbidden.status, forbidden.content_type), (403, None));
    assert_eq!(forbidden.body, b"Forbidden".to_vec());
    let forbidden = asset_gate(false, false).unwrap();
    assert_eq!(forbidden.status, 403);
    let missing = asset_gate(true, false).unwrap();
    assert_eq!((missing.status, missing.content_type), (404, None));
    assert_eq!(missing.body, b"Not Found".to_vec());
    assert!(asset_gate(true, true).is_none());
}

#[test]
fn the_two_gates_are_asked_one_after_the_other() {
    let forbidden = root_gate(false).unwrap();
    assert_eq!((forbidden.status, forbidden.content_type), (403, None));
    assert_eq!(forbidden.body, b"Forbidden".to_vec());
    assert!(root_gate(true).is_none());
    let missing = file_gate(false).unwrap();
    assert_eq!((missing.status, missing.content_type), (404, None));
    assert_eq!(missing.body, b"Not Found".to_vec());
    assert!(file_gate(true).is_none());
}

#[test]
fn an_asset_is_served_with_its_type() {
    let response = asset_response("img/logo", &PNG, PNG.to_vec());
    assert_eq!(response.status, 200);
    assert_eq!(response.content_type, Some("image/png"));
    assert_eq!(response.body, PNG.to_vec());
    let response = asset_response("app.js", &[], b"let a;".to_vec());
    assert_eq!(response.content_type, Some("text/javascript"));
    assert_eq!(response.body, b"let a;".to_vec());
}

#[test]
fn replace_takes_occurrences_from_the_left() {
    assert_eq!(replace("a-b-c", "-", "+"), "a+b+c");
    assert_eq!(replace("aaa", "aa", "b"), "ba");
    assert_eq!(replace("aaaa", "aa", "b"), "bb");
    assert_eq!(replace("abc", "abc", ""), "");
    assert_eq!(replace("abc", "abcd", "x"), "abc");
    assert_eq!(replace("abc", "x", "y"), "abc");
    assert_eq!(replace("", "x", "y"), "");
    assert_eq!(replace("abc", "", "y"), "abc");
    assert_eq!(replace("xabx", "x", "xx"), "xxabxx");
    assert_eq!(replace("h\u{e9}llo h\u{e9}", "h\u{e9}", "H"), "Hllo H");
    for (text, pattern, with) in [("dioxus://a/dioxus://", "dioxus://", ""), ("</body></body>", "</body>", "!</body>")] {
        assert_eq!(replace(text, pattern, with), text.replace(pattern, with));
    }
}

#[test]
fn trim_takes_every_copy_of_the_prefix() {
    assert_eq!(trim_start_matches("index.html/index.html/x", "index.html/"), "x");
    assert_eq!(trim_start_matches("index.html/", "index.html/"), "");
    assert_eq!(trim_start_matches("x/index.html/", "index.html/"), "x/index.html/");
    assert_eq!(trim_start_matches("aaab", "a"), "b");
    assert_eq!(trim_start_matches("aaab", "aa"), "ab");
    assert_eq!(trim_start_matches("abc", ""), "abc");
    assert_eq!(trim_start_matches("", "abc"), "");
    assert_eq!(trim_start_matches("\u{e9}\u{e9}a", "\u{e9}"), "a");
}

#[test]
fn text_tests() {
    assert!(ends_with("logo.svg", ".svg"));
    assert!(ends_with(".svg", ".svg"));
    assert!(ends_with("x", ""));
    assert!(!ends_with("svg", ".svg"));
    assert!(!ends_with("logo.svg ", ".svg"));
    assert!(same_text("abc", "abc"));
    assert!(same_text("", ""));
    assert!(!same_text("abc", "abd"));
    assert!(!same_text("abc", "ab"));
    assert!(!same_text("ab", "abc"));
    assert_eq!(chars_of("h\u{e9}!"), vec!['h', '\u{e9}', '!']);
    assert_eq!(chars_of(""), Vec::<char>::new());
    let hay = chars_of("abcabc");
    assert!(matches_at(&hay, 3, &chars_of("abc")));
    assert!(matches_at(&hay, 6, &chars_of("")));
    assert!(!matches_at(&hay, 4, &chars_of("abc")));
    assert!(!matches_at(&hay, 7, &chars_of("")));
    assert!(!matches_at(&hay, usize::MAX, &chars_of("a")));
    assert_eq!(last_segment("a.b.c", '.'), vec!['c']);
    assert_eq!(last_segment("abc", '.'), vec!['a', 'b', 'c']);
    assert_eq!(last_segment("abc.", '.'), Vec::<char>::new());
    assert_eq!(last_segment("", '.'), Vec::<char>::new());
}
