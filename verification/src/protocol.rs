//! The custom protocol of the desktop shell: which page, script or asset a
//! request names, and with which content type an asset is served.
use crate::text::chars_of;
use crate::text::ends_with;
use crate::text::last_segment;
use crate::text::matches_at;
use crate::text::replace;
use crate::text::same_text;
use crate::text::spec_ends_with;
use crate::text::spec_last_segment;
use crate::text::spec_replace;
use crate::text::spec_trim_start;
use crate::text::trim_start_matches;
use vstd::prelude::*;
use vstd::string::StrSliceExecFns;
use vstd::string::StringExecFns;
use vstd::string::StringSliceAdditionalSpecFns;

verus! {

/// What the module loader holds before the script of the interpreter.
pub const LOADER_HEAD: &'static str = "\n<script>\n    ";

/// What it holds between the script and the name of the root element.
pub const LOADER_MIDDLE: &'static str = "\n\n    let rootname = \"";

/// What it holds behind the name of the root element.
pub const LOADER_TAIL: &'static str =
    "\";\n    let root = window.document.getElementById(rootname);\n    if (root != null) {\n        window.interpreter = new Interpreter(root);\n        window.ipc.postMessage(serializeIpcMessage(\"initialize\"));\n    }\n</script>\n";

/// The index page that is served where the application brings none.
pub const DEFAULT_INDEX: &'static str =
    "<!DOCTYPE html>\n<html>\n  <head>\n    <title>Dioxus app</title>\n    <meta content=\"text/html;charset=utf-8\" http-equiv=\"Content-Type\" />\n    <meta name=\"viewport\" content=\"width=device-width, initial-scale=1.0, maximum-scale=1.0, user-scalable=no\" />\n    <!-- CUSTOM HEAD -->\n  </head>\n  <body>\n    <div id=\"main\"></div>\n    <!-- MODULE LOADER -->\n  </body>\n</html>\n";

/// `dioxus_interpreter_js::INTERPRETER_JS`: the script of the interpreter
/// that runs in the page.
#[verifier::external_body]
fn interpreter_js() -> (script: &'static str) {
    dioxus_interpreter_js::INTERPRETER_JS
}

/// The markup that loads `script` and starts the interpreter on the
/// element named `root_name`.
pub open spec fn spec_module_loader(script: Seq<char>, root_name: Seq<char>) -> Seq<char> {
    LOADER_HEAD@ + script + LOADER_MIDDLE@ + root_name + LOADER_TAIL@
}

pub fn module_loader_with(script: &str, root_name: &str) -> (markup: String)
    ensures
        markup@ == spec_module_loader(script@, root_name@),
{
    let mut markup = String::from_str(LOADER_HEAD);
    markup.append(script);
    markup.append(LOADER_MIDDLE);
    markup.append(root_name);
    markup.append(LOADER_TAIL);
    markup
}

/// The markup that loads the interpreter and starts it on the element
/// named `root_name`.
pub fn module_loader(root_name: &str) -> (markup: String)
    ensures
        exists|script: Seq<char>| markup@ == spec_module_loader(script, root_name@),
{
    module_loader_with(interpreter_js(), root_name)
}

/// The content type that goes with the last segment of a path, split at
/// its dots. A path without a known ending is taken for a page.
pub open spec fn spec_mime_by_ext(path: Seq<char>) -> Seq<char> {
    let suffix = spec_last_segment(path, '.');
    if suffix == "bin"@ {
        "application/octet-stream"@
    } else if suffix == "css"@ {
        "text/css"@
    } else if suffix == "csv"@ {
        "text/csv"@
    } else if suffix == "html"@ {
        "text/html"@
    } else if suffix == "ico"@ {
        "image/vnd.microsoft.icon"@
    } else if suffix == "js"@ {
        "text/javascript"@
    } else if suffix == "json"@ {
        "application/json"@
    } else if suffix == "jsonld"@ {
        "application/ld+json"@
    } else if suffix == "mjs"@ {
        "text/javascript"@
    } else if suffix == "rtf"@ {
        "application/rtf"@
    } else if suffix == "svg"@ {
        "image/svg+xml"@
    } else if suffix == "mp4"@ {
        "video/mp4"@
    } else {
        "text/html"@
    }
}

fn spells(chars: &Vec<char>, word: &str) -> (same: bool)
    ensures
        same == (chars@ == word@),
{
    let letters = chars_of(word);
    let same = chars.len() == letters.len() && matches_at(chars, 0, &letters);
    proof {
        if chars@.len() == letters@.len() {
            assert(chars@.subrange(0, letters@.len() as int) =~= chars@);
        }
    }
    same
}

/// The content type of a path, by its ending.
pub fn get_mime_by_ext(trimmed: &str) -> (mime: &'static str)
    ensures
        mime@ == spec_mime_by_ext(trimmed@),
{
    let suffix = last_segment(trimmed, '.');
    if spells(&suffix, "bin") {
        "application/octet-stream"
    } else if spells(&suffix, "css") {
        "text/css"
    } else if spells(&suffix, "csv") {
        "text/csv"
    } else if spells(&suffix, "html") {
        "text/html"
    } else if spells(&suffix, "ico") {
        "image/vnd.microsoft.icon"
    } else if spells(&suffix, "js") {
        "text/javascript"
    } else if spells(&suffix, "json") {
        "application/json"
    } else if spells(&suffix, "jsonld") {
        "application/ld+json"
    } else if spells(&suffix, "mjs") {
        "text/javascript"
    } else if spells(&suffix, "rtf") {
        "application/rtf"
    } else if spells(&suffix, "svg") {
        "image/svg+xml"
    } else if spells(&suffix, "mp4") {
        "video/mp4"
    } else {
        "text/html"
    }
}

/// The bytes that the sniffer skips at the start of a text: tab, line
/// feed, form feed, carriage return and space.
pub open spec fn is_blank(byte: u8) -> bool {
    byte == 0x09 || byte == 0x0a || byte == 0x0c || byte == 0x0d || byte == 0x20
}

/// The bytes without the blanks that they start with.
pub open spec fn spec_trim_blank(bytes: Seq<u8>) -> Seq<u8>
    decreases bytes.len(),
{
    if bytes.len() > 0 && is_blank(bytes[0]) {
        spec_trim_blank(bytes.skip(1))
    } else {
        bytes
    }
}

/// Whether stripping byte order marks off the front of the bytes comes to
/// an end: it does at the end of the bytes and at three bytes that open
/// with no mark, and it does not where one or two bytes are left.
pub open spec fn spec_marks_end(bytes: Seq<u8>) -> bool
    decreases bytes.len(),
{
    if bytes.len() == 0 {
        true
    } else if bytes.len() < 3 {
        false
    } else if bytes[0] == 0xef && bytes[1] == 0xbb && bytes[2] == 0xbf {
        spec_marks_end(bytes.skip(3))
    } else if (bytes[0] == 0xfe && bytes[1] == 0xff) || (bytes[0] == 0xff && bytes[1] == 0xfe) {
        spec_marks_end(bytes.skip(2))
    } else {
        true
    }
}

/// Whether the first bytes of a file can be handed to the sniffer. Its
/// test for XML takes the blanks and then the byte order marks off the
/// front and does not return where that leaves one or two bytes.
pub open spec fn spec_sniffable(head: Seq<u8>) -> bool {
    spec_marks_end(spec_trim_blank(head))
}

pub fn sniffable(head: &[u8]) -> (ok: bool)
    ensures
        ok == spec_sniffable(head@),
{
    let len = head.len();
    let mut at: usize = 0;
    proof {
        assert(head@.skip(0) =~= head@);
    }
    while at < len && (head[at] == 0x09 || head[at] == 0x0a || head[at] == 0x0c || head[at] == 0x0d
        || head[at] == 0x20)
        invariant
            len == head@.len(),
            at <= len,
            spec_trim_blank(head@) == spec_trim_blank(head@.skip(at as int)),
        decreases len - at,
    {
        proof {
            assert(head@.skip(at as int).skip(1) =~= head@.skip(at + 1));
        }
        at = at + 1;
    }
    proof {
        let rest = head@.skip(at as int);
        assert(rest.len() > 0 ==> rest[0] == head@[at as int]);
        assert(spec_trim_blank(rest) == rest);
    }
    loop
        invariant
            len == head@.len(),
            at <= len,
            spec_sniffable(head@) == spec_marks_end(head@.skip(at as int)),
        decreases len - at,
    {
        let left = len - at;
        let ghost rest = head@.skip(at as int);
        if left == 0 {
            return true;
        }
        if left < 3 {
            return false;
        }
        proof {
            assert(rest[0] == head@[at as int]);
            assert(rest[1] == head@[at + 1]);
            assert(rest[2] == head@[at + 2]);
            assert(rest.skip(3) =~= head@.skip(at + 3));
            assert(rest.skip(2) =~= head@.skip(at + 2));
        }
        if head[at] == 0xef && head[at + 1] == 0xbb && head[at + 2] == 0xbf {
            at = at + 3;
        } else if (head[at] == 0xfe && head[at + 1] == 0xff) || (head[at] == 0xff && head[at + 1]
            == 0xfe) {
            at = at + 2;
        } else {
            return true;
        }
    }
}

/// The content type that `infer` finds in the first bytes of a file, if it
/// knows the format.
pub uninterp spec fn sniffed_mime(head: Seq<u8>) -> Option<Seq<char>>;

/// `infer::get`, then `Type::mime_type`: the content type of the format
/// that the bytes open with, if `infer` knows it. The call is made only
/// on bytes on which its test for XML returns.
#[verifier::external_body]
fn sniff_mime(head: &[u8]) -> (mime: Option<&'static str>)
    requires
        spec_sniffable(head@),
    ensures
        sniffed_mime(head@) == (match mime {
            Some(name) => Some(name@),
            None => None,
        }),
{
    match infer::get(head) {
        Some(format) => Some(format.mime_type()),
        None => None,
    }
}

/// What the content shows of its type: what the sniffer finds, and
/// nothing where the content cannot be handed to it.
pub open spec fn spec_sniffed(head: Seq<u8>) -> Option<Seq<char>> {
    if spec_sniffable(head) {
        sniffed_mime(head)
    } else {
        None
    }
}

/// The content type of an asset: a path that ends in `.svg` is an SVG
/// image; else what the content showed, unless that is plain text or
/// nothing, where the ending of the path decides.
pub open spec fn spec_choose_mime(path: Seq<char>, sniffed: Option<Seq<char>>) -> Seq<char> {
    if spec_ends_with(path, ".svg"@) {
        "image/svg+xml"@
    } else {
        match sniffed {
            Some(found) => if found == "text/plain"@ {
                spec_mime_by_ext(path)
            } else {
                found
            },
            None => spec_mime_by_ext(path),
        }
    }
}

/// Whether the content of an asset is looked at to find its type.
pub fn sniffs_content(trimmed: &str) -> (looks: bool)
    ensures
        looks == !spec_ends_with(trimmed@, ".svg"@),
{
    !ends_with(trimmed, ".svg")
}

/// The content type of an asset, given what its content showed.
pub fn choose_mime(trimmed: &str, sniffed: Option<&'static str>) -> (mime: &'static str)
    ensures
        mime@ == spec_choose_mime(
            trimmed@,
            match sniffed {
                Some(found) => Some(found@),
                None => None,
            },
        ),
{
    if ends_with(trimmed, ".svg") {
        return "image/svg+xml";
    }
    match sniffed {
        Some(found) => {
            if same_text(found, "text/plain") {
                get_mime_by_ext(trimmed)
            } else {
                found
            }
        },
        None => get_mime_by_ext(trimmed),
    }
}

/// The content type of an asset, from its path and the first bytes of
/// the file. The bytes of an SVG image are not looked at.
///
/// Content that `sniffable` turns down is not sniffed at all, though the
/// sniffer would return on some of it: its test for XML runs only after
/// every other test has failed. The two bytes `BM` open a bitmap to the
/// sniffer; here the ending of the path decides for them.
pub fn get_mime_from_path(trimmed: &str, head: &[u8]) -> (mime: &'static str)
    ensures
        mime@ == spec_choose_mime(trimmed@, spec_sniffed(head@)),
{
    if sniffs_content(trimmed) && sniffable(head) {
        choose_mime(trimmed, sniff_mime(head))
    } else {
        choose_mime(trimmed, None)
    }
}

/// A response of the handler: the status, the content type if one is
/// sent, and the body.
pub struct HandlerResponse {
    pub status: u16,
    pub content_type: Option<&'static str>,
    pub body: Vec<u8>,
}

/// A response in plain values.
pub struct ResponseView {
    pub status: u16,
    pub content_type: Option<Seq<char>>,
    pub body: Seq<u8>,
}

impl View for HandlerResponse {
    type V = ResponseView;

    open spec fn view(&self) -> ResponseView {
        ResponseView {
            status: self.status,
            content_type: match self.content_type {
                Some(name) => Some(name@),
                None => None,
            },
            body: self.body@,
        }
    }
}

/// What the handler does with a request: it answers, or it asks for the
/// asset under a path below the asset root.
pub enum Handled {
    Respond(HandlerResponse),
    Asset(String),
}

pub enum HandledView {
    Respond(ResponseView),
    Asset(Seq<char>),
}

impl View for Handled {
    type V = HandledView;

    open spec fn view(&self) -> HandledView {
        match *self {
            Handled::Respond(response) => HandledView::Respond(response@),
            Handled::Asset(path) => HandledView::Asset(path@),
        }
    }
}

/// The text of a string that may be absent.
pub open spec fn text_of(value: Option<String>) -> Option<Seq<char>> {
    match value {
        Some(text) => Some(text@),
        None => None,
    }
}

/// The path that a request names: its address without the scheme and
/// without the index page that assets are asked from.
pub open spec fn spec_request_path(uri: Seq<char>) -> Seq<char> {
    spec_trim_start(spec_replace(uri, "dioxus://"@, ""@), "index.html/"@)
}

/// The index page. An index that the application brings gets the module
/// loader before the end of its body; the default index gets the custom
/// head, if there is one, and the module loader in the places marked for
/// them.
pub open spec fn spec_index_page(
    script: Seq<char>,
    custom_head: Option<Seq<char>>,
    custom_index: Option<Seq<char>>,
    root_name: Seq<char>,
) -> Seq<char> {
    let loader = spec_module_loader(script, root_name);
    match custom_index {
        Some(index) => spec_replace(index, "</body>"@, loader + "</body>"@),
        None => {
            let template = match custom_head {
                Some(head) => spec_replace(DEFAULT_INDEX@, "<!-- CUSTOM HEAD -->"@, head),
                None => DEFAULT_INDEX@,
            };
            spec_replace(template, "<!-- MODULE LOADER -->"@, loader)
        },
    }
}

/// What the handler does with a request, where `script` is the script of
/// the interpreter.
pub open spec fn spec_handled(
    script: Seq<char>,
    uri: Seq<char>,
    custom_head: Option<Seq<char>>,
    custom_index: Option<Seq<char>>,
    root_name: Seq<char>,
) -> HandledView {
    let path = spec_request_path(uri);
    if path.len() == 0 {
        HandledView::Respond(
            ResponseView {
                status: 200,
                content_type: Some("text/html"@),
                body: vstd::utf8::encode_utf8(
                    spec_index_page(script, custom_head, custom_index, root_name),
                ),
            },
        )
    } else if path == "index.js"@ {
        HandledView::Respond(
            ResponseView {
                status: 200,
                content_type: Some("text/javascript"@),
                body: vstd::utf8::encode_utf8(script),
            },
        )
    } else {
        HandledView::Asset(path)
    }
}

pub fn index_page(
    script: &str,
    custom_head: Option<String>,
    custom_index: Option<String>,
    root_name: &str,
) -> (page: String)
    ensures
        page@ == spec_index_page(
            script@,
            text_of(custom_head),
            text_of(custom_index),
            root_name@,
        ),
{
    let loader = module_loader_with(script, root_name);
    match custom_index {
        Some(index) => {
            let mut closing = String::from_str(loader.as_str());
            closing.append("</body>");
            replace(index.as_str(), "</body>", closing.as_str())
        },
        None => {
            let template = match custom_head {
                Some(head) => replace(DEFAULT_INDEX, "<!-- CUSTOM HEAD -->", head.as_str()),
                None => String::from_str(DEFAULT_INDEX),
            };
            replace(template.as_str(), "<!-- MODULE LOADER -->", loader.as_str())
        },
    }
}

/// Handles a request with a given script of the interpreter.
pub fn desktop_handler_with(
    script: &str,
    uri: &str,
    custom_head: Option<String>,
    custom_index: Option<String>,
    root_name: &str,
) -> (step: Handled)
    ensures
        step@ == spec_handled(
            script@,
            uri@,
            text_of(custom_head),
            text_of(custom_index),
            root_name@,
        ),
{
    let path = replace(uri, "dioxus://", "");
    let trimmed = trim_start_matches(path.as_str(), "index.html/");
    if trimmed.is_empty() {
        let page = index_page(script, custom_head, custom_index, root_name);
        Handled::Respond(
            HandlerResponse {
                status: 200,
                content_type: Some("text/html"),
                body: page.as_str().as_bytes_vec(),
            },
        )
    } else if same_text(trimmed, "index.js") {
        Handled::Respond(
            HandlerResponse {
                status: 200,
                content_type: Some("text/javascript"),
                body: script.as_bytes_vec(),
            },
        )
    } else {
        Handled::Asset(String::from_str(trimmed))
    }
}

/// Handles a request to the custom protocol: the index page, the script
/// of the interpreter, or the path of the asset to be served.
pub fn desktop_handler(
    uri: &str,
    custom_head: Option<String>,
    custom_index: Option<String>,
    root_name: &str,
) -> (step: Handled)
    ensures
        exists|script: Seq<char>|
            step@ == #[trigger] spec_handled(
                script,
                uri@,
                text_of(custom_head),
                text_of(custom_index),
                root_name@,
            ),
{
    desktop_handler_with(interpreter_js(), uri, custom_head, custom_index, root_name)
}

/// The directory that assets are served from: the one that the
/// application names; else the resources of its bundle, unless cargo runs
/// it; else the fallback.
pub open spec fn spec_asset_root<T>(
    given: Option<T>,
    under_cargo: bool,
    bundled: Option<T>,
    fallback: T,
) -> T {
    match given {
        Some(root) => root,
        None => match bundled {
            Some(root) => if under_cargo {
                fallback
            } else {
                root
            },
            None => fallback,
        },
    }
}

/// Whether the bundle is asked for its resources: only where the
/// application names no asset root and cargo does not run it.
pub open spec fn spec_looks_up_bundle<T>(given: Option<T>, under_cargo: bool) -> bool {
    given is None && !under_cargo
}

pub fn looks_up_bundle<T>(given: &Option<T>, under_cargo: bool) -> (looks: bool)
    ensures
        looks == spec_looks_up_bundle(*given, under_cargo),
{
    given.is_none() && !under_cargo
}

/// Where the bundle is not asked, what it would have answered changes
/// nothing.
pub proof fn lemma_bundle_unasked<T>(
    given: Option<T>,
    under_cargo: bool,
    bundled: Option<T>,
    fallback: T,
)
    requires
        !spec_looks_up_bundle(given, under_cargo),
    ensures
        spec_asset_root(given, under_cargo, bundled, fallback) == spec_asset_root(
            given,
            under_cargo,
            None,
            fallback,
        ),
{
}

pub fn pick_asset_root<T>(
    given: Option<T>,
    under_cargo: bool,
    bundled: Option<T>,
    fallback: T,
) -> (root: T)
    ensures
        root == spec_asset_root(given, under_cargo, bundled, fallback),
{
    match given {
        Some(root) => root,
        None => match bundled {
            Some(root) => {
                if under_cargo {
                    fallback
                } else {
                    root
                }
            },
            None => fallback,
        },
    }
}

/// Why an asset is not served, if it is not: a path that leaves the asset
/// root is forbidden, a file that is not there is not found.
pub open spec fn spec_asset_gate(within_root: bool, exists: bool) -> Option<ResponseView> {
    if !within_root {
        Some(
            ResponseView {
                status: 403,
                content_type: None,
                body: vstd::utf8::encode_utf8("Forbidden"@),
            },
        )
    } else if !exists {
        Some(
            ResponseView {
                status: 404,
                content_type: None,
                body: vstd::utf8::encode_utf8("Not Found"@),
            },
        )
    } else {
        None
    }
}

/// The refusal of a path that leaves the asset root.
pub fn root_gate(within_root: bool) -> (refused: Option<HandlerResponse>)
    ensures
        refused is Some == !within_root,
        spec_asset_gate(within_root, true) == (match refused {
            Some(response) => Some(response@),
            None => None,
        }),
{
    asset_gate(within_root, true)
}

/// The refusal of a file below the asset root that is not there.
pub fn file_gate(exists: bool) -> (refused: Option<HandlerResponse>)
    ensures
        refused is Some == !exists,
        spec_asset_gate(true, exists) == (match refused {
            Some(response) => Some(response@),
            None => None,
        }),
{
    asset_gate(true, exists)
}

/// Decides whether an asset may be read. `within_root` says that its
/// resolved path lies below the asset root, `exists` that the file is
/// there.
pub fn asset_gate(within_root: bool, exists: bool) -> (refused: Option<HandlerResponse>)
    ensures
        spec_asset_gate(within_root, exists) == (match refused {
            Some(response) => Some(response@),
            None => None,
        }),
{
    if !within_root {
        Some(HandlerResponse { status: 403, content_type: None, body: "Forbidden".as_bytes_vec() })
    } else if !exists {
        Some(HandlerResponse { status: 404, content_type: None, body: "Not Found".as_bytes_vec() })
    } else {
        None
    }
}

/// The response that serves an asset: its content, with the content type
/// found from its path and from the first bytes of the file.
pub fn asset_response(trimmed: &str, head: &[u8], content: Vec<u8>) -> (response: HandlerResponse)
    ensures
        response@ == (ResponseView {
            status: 200,
            content_type: Some(spec_choose_mime(trimmed@, spec_sniffed(head@))),
            body: content@,
        }),
{
    HandlerResponse {
        status: 200,
        content_type: Some(get_mime_from_path(trimmed, head)),
        body: content,
    }
}

} // verus!
