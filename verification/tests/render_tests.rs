use works_archive::config::port_from;
use works_archive::render::{
    display_title, render_document, render_request, resolve_rel_path, validate_params, RenderPlan,
};
use works_archive::thumb::extract_first_image;

#[test]
fn trusted_raw_html_image_wins_over_native_syntax() {
    let md = "<img src=\"https://github.com/user-attachments/abc123\">\n\n\
              ![x](http://other.example/y.png)\n";
    assert_eq!(
        extract_first_image(md).as_deref(),
        Some("https://github.com/user-attachments/abc123")
    );
}

#[test]
fn native_images_alone_yield_nothing() {
    let md = "# Gallery\n\n![a](http://other.example/a.png)\n\n\
              ![b](https://github.com/user-attachments/b.png)\n";
    assert_eq!(extract_first_image(md), None);
}

#[test]
fn untrusted_raw_html_image_yields_nothing() {
    let md = "<img src=\"https://elsewhere.example/pic.png\">\n";
    assert_eq!(extract_first_image(md), None);
}

#[test]
fn marker_inside_code_span_yields_nothing() {
    // the marker text is present, but as code, not as a raw-HTML fragment
    let md = "see `<img src=\"https://github.com/user-attachments/abc123\">` for the syntax\n";
    assert_eq!(extract_first_image(md), None);
}

#[test]
fn first_of_several_trusted_images_wins() {
    let md = "<img src=\"https://github.com/user-attachments/first\">\n\n\
              <img src=\"https://github.com/user-attachments/second\">\n";
    assert_eq!(
        extract_first_image(md).as_deref(),
        Some("https://github.com/user-attachments/first")
    );
}

#[test]
fn render_ok_with_heading_and_display_title() {
    let (status, page) = render_document("2024", "my-post", Some("# Hello"));
    assert_eq!(status, 200);
    assert!(page.contains("<h1>Hello</h1>"), "body missing: {}", page);
    assert!(page.contains("My Post"), "title missing: {}", page);
    assert!(page.contains("2024"));
}

#[test]
fn render_missing_document_references_path() {
    let (status, page) = render_document("2024", "nope", None);
    assert_eq!(status, 404);
    assert!(page.contains("2024/nope.md"), "path not echoed: {}", page);
}

#[test]
fn traversal_title_is_rejected_before_any_resolution() {
    match render_request("2024", "..") {
        RenderPlan::Reject(body) => assert!(body.contains("400")),
        RenderPlan::Fetch(p) => panic!("traversal accepted: {}", p),
    }
    match render_request("..", "post") {
        RenderPlan::Reject(body) => assert!(body.contains("400")),
        RenderPlan::Fetch(p) => panic!("traversal accepted: {}", p),
    }
    match render_request("2024", "a/b") {
        RenderPlan::Reject(_) => {}
        RenderPlan::Fetch(p) => panic!("separator accepted: {}", p),
    }
}

#[test]
fn valid_request_resolves_to_document_path() {
    match render_request("2024", "my-post") {
        RenderPlan::Fetch(p) => assert_eq!(p, "2024/my-post.md"),
        RenderPlan::Reject(b) => panic!("valid pair rejected: {}", b),
    }
}

#[test]
fn oversized_segments_are_rejected() {
    let long_year = "y".repeat(21);
    let long_title = "t".repeat(301);
    assert!(!validate_params(&long_year, "ok"));
    assert!(!validate_params("2024", &long_title));
    assert!(validate_params(&"y".repeat(20), &"t".repeat(300)));
}

#[test]
fn resolve_joins_segments() {
    assert_eq!(resolve_rel_path("2024", "my-post"), "2024/my-post.md");
}

#[test]
fn display_title_capitalizes_words() {
    assert_eq!(display_title("my-post"), "My Post");
    assert_eq!(display_title("hello_there-world"), "Hello There World");
    assert_eq!(display_title("already Good"), "Already Good");
    assert_eq!(display_title("--x--"), "X");
    assert_eq!(display_title(""), "");
    assert_eq!(display_title("___"), "");
}

#[test]
fn port_defaults_when_absent_or_bad() {
    assert_eq!(port_from(None), 8080);
    assert_eq!(port_from(Some("")), 8080);
    assert_eq!(port_from(Some("abc")), 8080);
    assert_eq!(port_from(Some("-1")), 8080);
    assert_eq!(port_from(Some("70000")), 8080);
    assert_eq!(port_from(Some("12.3")), 8080);
}

#[test]
fn port_parses_numbers() {
    assert_eq!(port_from(Some("3000")), 3000);
    assert_eq!(port_from(Some("+80")), 80);
    assert_eq!(port_from(Some("0080")), 80);
    assert_eq!(port_from(Some("65535")), 65535);
    assert_eq!(port_from(Some("65536")), 8080);
}

#[test]
fn unterminated_src_attribute_yields_nothing() {
    let md = "<img src=\"https://github.com/user-attachments/broken\n";
    assert_eq!(extract_first_image(md), None);
}

#[test]
fn later_fragment_still_found() {
    let md = "<p>plain</p>\n\nsome text\n\n<img src=\"https://github.com/user-attachments/late\">\n";
    assert_eq!(
        extract_first_image(md).as_deref(),
        Some("https://github.com/user-attachments/late")
    );
}
