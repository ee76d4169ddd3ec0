use vstd::prelude::*;
use vstd::string::StrSliceExecFns;
use vstd::string::StringExecFns;
use crate::text::first_occ;
use crate::text::find_sub;
use crate::text::contains_char;
use crate::text::push_char;
use crate::text::char_upper;
use crate::text::char_is_ws;
use crate::text::upper_of;
use crate::text::is_unicode_ws;

verus! {

// ---------------------------------------------------------------------------
// Validation of user-supplied identifiers
// ---------------------------------------------------------------------------

/// A year segment is acceptable when it is short enough and free of
/// traversal sequences and path separators.
pub open spec fn valid_year(s: Seq<char>) -> bool {
    &&& s.len() <= crate::MAX_YEAR_CHARS
    &&& first_occ(s, ".."@) is None
    &&& !s.contains('/')
}

/// A title segment is acceptable when it is short enough and free of
/// traversal sequences and path separators.
pub open spec fn valid_title(s: Seq<char>) -> bool {
    &&& s.len() <= crate::MAX_TITLE_CHARS
    &&& first_occ(s, ".."@) is None
    &&& !s.contains('/')
}

/// Accept or reject a user-supplied (year, title) pair before any
/// filesystem access.
pub fn validate_params(year: &str, title: &str) -> (r: bool)
    ensures
        r == (valid_year(year@) && valid_title(title@)),
{
    if year.unicode_len() > MAX_YEAR_CHARS {
        return false;
    }
    if title.unicode_len() > MAX_TITLE_CHARS {
        return false;
    }
    if find_sub(year, "..").is_some() || find_sub(title, "..").is_some() {
        return false;
    }
    if contains_char(year, '/') || contains_char(title, '/') {
        return false;
    }
    true
}

use crate::MAX_YEAR_CHARS;
use crate::MAX_TITLE_CHARS;

// ---------------------------------------------------------------------------
// Path resolution
// ---------------------------------------------------------------------------

/// The document path below the content root for a (year, title) pair.
pub open spec fn rel_doc_path(year: Seq<char>, title: Seq<char>) -> Seq<char> {
    year + seq!['/'] + title + ".md"@
}

/// Join a validated (year, title) pair into the relative document path.
pub fn resolve_rel_path(year: &str, title: &str) -> (r: String)
    ensures
        r@ == rel_doc_path(year@, title@),
{
    let mut out = String::new();
    out.append(year);
    out.append("/");
    out.append(title);
    out.append(".md");
    proof {
        reveal_strlit("/");
        assert(out@ =~= rel_doc_path(year@, title@));
    }
    out
}

// ---------------------------------------------------------------------------
// Markdown conversion
// ---------------------------------------------------------------------------

/// The HTML the markdown engine renders for a document; a function of the
/// document text alone.
pub uninterp spec fn html_of(md: Seq<char>) -> Seq<char>;

/// Relies on `pulldown_cmark::html::push_html`: appends the HTML rendering
/// of the parsed document to the buffer.
#[verifier::external_body]
fn markdown_to_html(md_content: &str) -> (r: String)
    ensures
        r@ == html_of(md_content@),
{
    let mut html_output = String::new();
    let parser = pulldown_cmark::Parser::new(md_content);
    pulldown_cmark::html::push_html(&mut html_output, parser);
    html_output
}

// ---------------------------------------------------------------------------
// Display titles
// ---------------------------------------------------------------------------

/// Hyphens and underscores read as spaces.
pub open spec fn norm_sep(c: char) -> char {
    if c == '-' || c == '_' {
        ' '
    } else {
        c
    }
}

/// The display form of what remains of a title: words, their first
/// character uppercased, joined by single spaces. `in_word` says whether the
/// previous character continued a word; `emitted` whether any word has been
/// written yet.
pub open spec fn disp(s: Seq<char>, in_word: bool, emitted: bool) -> Seq<char>
    decreases s.len(),
{
    if s.len() == 0 {
        Seq::empty()
    } else {
        let c = norm_sep(s[0]);
        if is_unicode_ws(c) {
            disp(s.drop_first(), false, emitted)
        } else if in_word {
            seq![c] + disp(s.drop_first(), true, emitted)
        } else {
            (if emitted {
                seq![' ']
            } else {
                Seq::empty()
            }) + upper_of(c) + disp(s.drop_first(), true, true)
        }
    }
}

/// The human-readable form of a title: separators read as spaces, each
/// word's first character uppercased, words joined by single spaces.
pub open spec fn display_of(s: Seq<char>) -> Seq<char> {
    disp(s, false, false)
}

/// Derive the human-readable display title.
pub fn display_title(title: &str) -> (r: String)
    ensures
        r@ == display_of(title@),
{
    let n = title.unicode_len();
    let mut out = String::new();
    let mut in_word = false;
    let mut emitted = false;
    let mut i: usize = 0;
    proof {
        assert(title@.skip(0) =~= title@);
    }
    while i < n
        invariant
            n == title@.len(),
            0 <= i <= n,
            display_of(title@) == out@ + disp(title@.skip(i as int), in_word, emitted),
        decreases n - i,
    {
        let c0 = title.get_char(i);
        let c = if c0 == '-' || c0 == '_' {
            ' '
        } else {
            c0
        };
        proof {
            assert(title@.skip(i as int)[0] == title@[i as int]);
            assert(title@.skip(i as int).drop_first() =~= title@.skip(i + 1));
            assert(c == norm_sep(title@[i as int]));
        }
        if char_is_ws(c) {
            in_word = false;
        } else if in_word {
            push_char(&mut out, c);
            proof {
                assert(disp(title@.skip(i as int), true, emitted) == seq![c] + disp(
                    title@.skip(i + 1),
                    true,
                    emitted,
                ));
                assert((out@ + (seq![c] + disp(title@.skip(i + 1), true, emitted))) =~= (out@
                    + seq![c]) + disp(title@.skip(i + 1), true, emitted));
            }
        } else {
            let ghost out0 = out@;
            let ghost em0 = emitted;
            if emitted {
                push_char(&mut out, ' ');
            }
            let up = char_upper(c);
            out.append(up.as_str());
            in_word = true;
            emitted = true;
            proof {
                let lead: Seq<char> = if em0 {
                    seq![' ']
                } else {
                    Seq::empty()
                };
                assert(out@ =~= out0 + lead + upper_of(c));
                assert(disp(title@.skip(i as int), false, em0) == lead + upper_of(c) + disp(
                    title@.skip(i + 1),
                    true,
                    true,
                ));
                assert((out0 + (lead + upper_of(c) + disp(title@.skip(i + 1), true, true))) =~= (
                out0 + lead + upper_of(c)) + disp(title@.skip(i + 1), true, true));
            }
        }
        i += 1;
    }
    proof {
        assert(title@.skip(n as int).len() == 0);
        assert(out@ + Seq::<char>::empty() =~= out@);
    }
    out
}

// ---------------------------------------------------------------------------
// Page templates
// ---------------------------------------------------------------------------

pub const STATUS_OK: u16 = 200;

pub const STATUS_BAD_REQUEST: u16 = 400;

pub const STATUS_NOT_FOUND: u16 = 404;

/// The rendered document page: the display title and year in the title tag
/// and heading, and the converted HTML in the body.
pub open spec fn page_of(td: Seq<char>, year: Seq<char>, body: Seq<char>) -> Seq<char> {
    "<!DOCTYPE html>\n<html lang=\"en\" class=\"dark\">\n<head>\n<meta charset=\"UTF-8\" />\n<meta name=\"viewport\" content=\"width=device-width, initial-scale=1.0\"/>\n<title>"@
        + td + " - "@ + year
        + "</title>\n<style>\nbody { background: #0a0a0f; color: #e0e0ff; font-family: sans-serif; line-height: 1.7; max-width: 900px; margin: 0 auto; padding: 3rem 1rem; }\nh1, h2, h3 { color: #fff; }\na { color: #6366f1; }\npre, code { background: #111119; border-radius: 0.3rem; }\nimg { max-width: 100%; height: auto; }\n</style>\n</head>\n<body>\n<a href=\"/\" class=\"back\">&larr; Back to archive</a>\n<h1>"@
        + td + "</h1>\n<p style=\"color: #a0a0cc;\">From "@ + year + "</p>\n<div>"@ + body
        + "</div>\n</body>\n</html>\n"@
}

/// The not-found page, echoing the document path that was attempted.
pub open spec fn not_found_page_of(year: Seq<char>, title: Seq<char>) -> Seq<char> {
    "<!DOCTYPE html>\n<html lang=\"en\" class=\"dark\">\n<head><title>404 Not Found</title></head>\n<body>\n<h1>404 - Not Found</h1>\n<p>Could not find: <code>"@
        + rel_doc_path(year, title)
        + "</code></p>\n<p><a href=\"/\">&larr; Back to archive</a></p>\n</body>\n</html>\n"@
}

/// The bad-request page; it names no input.
pub open spec fn bad_request_page_of() -> Seq<char> {
    "<h1>400 Bad Request</h1><p>Invalid year or title</p>"@
}

/// Wrap converted HTML, the display title and the year in the fixed page
/// template. Isolated so a sanitization pass could be inserted here alone.
pub fn wrap_page(title_display: &str, year: &str, md_html: &str) -> (r: String)
    ensures
        r@ == page_of(title_display@, year@, md_html@),
{
    let mut out: String =
        "<!DOCTYPE html>\n<html lang=\"en\" class=\"dark\">\n<head>\n<meta charset=\"UTF-8\" />\n<meta name=\"viewport\" content=\"width=device-width, initial-scale=1.0\"/>\n<title>".to_owned();
    out.append(title_display);
    out.append(" - ");
    out.append(year);
    out.append(
        "</title>\n<style>\nbody { background: #0a0a0f; color: #e0e0ff; font-family: sans-serif; line-height: 1.7; max-width: 900px; margin: 0 auto; padding: 3rem 1rem; }\nh1, h2, h3 { color: #fff; }\na { color: #6366f1; }\npre, code { background: #111119; border-radius: 0.3rem; }\nimg { max-width: 100%; height: auto; }\n</style>\n</head>\n<body>\n<a href=\"/\" class=\"back\">&larr; Back to archive</a>\n<h1>",
    );
    out.append(title_display);
    out.append("</h1>\n<p style=\"color: #a0a0cc;\">From ");
    out.append(year);
    out.append("</p>\n<div>");
    out.append(md_html);
    out.append("</div>\n</body>\n</html>\n");
    out
}

/// The not-found response body for a (year, title) pair.
pub fn not_found_html(year: &str, title: &str) -> (r: String)
    ensures
        r@ == not_found_page_of(year@, title@),
{
    let mut out: String =
        "<!DOCTYPE html>\n<html lang=\"en\" class=\"dark\">\n<head><title>404 Not Found</title></head>\n<body>\n<h1>404 - Not Found</h1>\n<p>Could not find: <code>".to_owned();
    let rel = resolve_rel_path(year, title);
    out.append(rel.as_str());
    out.append("</code></p>\n<p><a href=\"/\">&larr; Back to archive</a></p>\n</body>\n</html>\n");
    out
}

// ---------------------------------------------------------------------------
// The render pipeline
// ---------------------------------------------------------------------------

/// What the pipeline asks of its caller after validation: reject outright,
/// or fetch the named document below the content root.
pub enum RenderPlan {
    /// The pair was rejected; serve this body with status 400 and touch no
    /// file.
    Reject(String),
    /// The pair was accepted; read this path relative to the content root.
    Fetch(String),
}

/// Validate a user-supplied (year, title) pair: an invalid pair is rejected
/// with the bad-request page before any filesystem access, a valid one
/// resolved to its document path.
pub fn render_request(year: &str, title: &str) -> (r: RenderPlan)
    ensures
        match r {
            RenderPlan::Reject(b) => !(valid_year(year@) && valid_title(title@)) && b@
                == bad_request_page_of(),
            RenderPlan::Fetch(p) => valid_year(year@) && valid_title(title@) && p@
                == rel_doc_path(year@, title@),
        },
{
    if !validate_params(year, title) {
        RenderPlan::Reject("<h1>400 Bad Request</h1><p>Invalid year or title</p>".to_owned())
    } else {
        RenderPlan::Fetch(resolve_rel_path(year, title))
    }
}

/// Render the fetched document, or the not-found page when no content could
/// be read: the converted HTML wrapped in the page template under the
/// derived display title.
pub fn render_document(year: &str, title: &str, content: Option<&str>) -> (r: (u16, String))
    ensures
        match content {
            Some(c) => r.0 == STATUS_OK && r.1@ == page_of(display_of(title@), year@, html_of(c@)),
            None => r.0 == STATUS_NOT_FOUND && r.1@ == not_found_page_of(year@, title@),
        },
{
    match content {
        Some(c) => {
            let md_html = markdown_to_html(c);
            let td = display_title(title);
            let page = wrap_page(td.as_str(), year, md_html.as_str());
            (STATUS_OK, page)
        },
        None => (STATUS_NOT_FOUND, not_found_html(year, title)),
    }
}

} // verus!
