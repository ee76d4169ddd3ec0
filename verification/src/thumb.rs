use vstd::prelude::*;
use vstd::string::StrSliceExecFns;
use crate::text::find_sub;
use crate::text::has_prefix;

verus! {

// ---------------------------------------------------------------------------
// Thumbnail extraction
//
// A document's thumbnail is the first embedded image whose source points at
// the trusted asset host. Only raw-HTML fragments of the document qualify;
// markdown-native image syntax is deliberately ignored, since only the known
// upload host is trusted as a thumbnail source.
// ---------------------------------------------------------------------------

/// The literal searched for inside a raw-HTML fragment: a `src` attribute
/// opening with the trusted asset host.
pub open spec fn marker() -> Seq<char> {
    "src=\"https://github.com/user-attachments/"@
}

/// The prefix an extracted source must still carry to qualify.
pub open spec fn trusted_prefix() -> Seq<char> {
    "https://github.com/user-attachments/"@
}

/// The image reference one raw-HTML fragment yields: after the first marker,
/// the text up to the next double quote, provided it still begins with the
/// trusted prefix.
pub open spec fn extract_of(f: Seq<char>) -> Option<Seq<char>> {
    match first_occ(f, marker()) {
        None => None,
        Some(i) => {
            let rest = f.skip(i + 5);
            match first_occ(rest, "\""@) {
                None => None,
                Some(e) => {
                    let src = rest.take(e);
                    if trusted_prefix().is_prefix_of(src) {
                        Some(src)
                    } else {
                        None
                    }
                },
            }
        },
    }
}

/// The first qualifying image reference across the fragments, in reading
/// order.
pub open spec fn first_image_of(frags: Seq<Seq<char>>) -> Option<Seq<char>>
    decreases frags.len(),
{
    if frags.len() == 0 {
        None
    } else {
        match extract_of(frags[0]) {
            Some(u) => Some(u),
            None => first_image_of(frags.drop_first()),
        }
    }
}

use crate::text::first_occ;

/// The raw-HTML fragments the markdown engine yields for a document, in
/// reading order; a function of the document text alone.
pub uninterp spec fn html_fragments_of(md: Seq<char>) -> Seq<Seq<char>>;

/// Relies on `pulldown_cmark::Parser`: iterating it yields the document's
/// events in reading order, among them the raw-HTML fragments (block-level
/// `Html` and inline `InlineHtml`), whose text this returns in that order.
#[verifier::external_body]
fn raw_html_fragments(md: &str) -> (r: Vec<String>)
    ensures
        r.deep_view() == html_fragments_of(md@),
{
    let mut out = Vec::new();
    for ev in pulldown_cmark::Parser::new(md) {
        match ev {
            pulldown_cmark::Event::Html(h) => out.push(h.to_string()),
            pulldown_cmark::Event::InlineHtml(h) => out.push(h.to_string()),
            _ => {},
        }
    }
    out
}

/// Scan one raw-HTML fragment for a trusted-host image reference.
pub fn scan_fragment(f: &str) -> (r: Option<String>)
    ensures
        match r {
            Some(u) => extract_of(f@) == Some(u@),
            None => extract_of(f@) is None,
        },
{
    match find_sub(f, "src=\"https://github.com/user-attachments/") {
        None => None,
        Some(i) => {
            proof {
                reveal_strlit("src=\"https://github.com/user-attachments/");
                crate::text::lemma_first_occ_characterization(f@, marker());
            }
            let n = f.unicode_len();
            let rest = f.substring_char(i + 5, n);
            proof {
                assert(rest@ =~= f@.skip(i + 5));
            }
            match find_sub(rest, "\"") {
                None => None,
                Some(e) => {
                    proof {
                        reveal_strlit("\"");
                        crate::text::lemma_first_occ_characterization(rest@, "\""@);
                    }
                    let src = rest.substring_char(0, e);
                    proof {
                        assert(src@ =~= rest@.take(e as int));
                    }
                    if has_prefix(src, "https://github.com/user-attachments/") {
                        Some(src.to_owned())
                    } else {
                        None
                    }
                },
            }
        },
    }
}

/// The first embedded-image reference of the document that points at the
/// trusted asset host, or nothing.
pub fn extract_first_image(md: &str) -> (r: Option<String>)
    ensures
        match r {
            Some(u) => first_image_of(html_fragments_of(md@)) == Some(u@),
            None => first_image_of(html_fragments_of(md@)) is None,
        },
{
    let frags = raw_html_fragments(md);
    let ghost fv = html_fragments_of(md@);
    let mut k: usize = 0;
    proof {
        assert(fv.skip(0) =~= fv);
    }
    while k < frags.len()
        invariant
            fv == html_fragments_of(md@),
            frags.deep_view() == fv,
            0 <= k <= frags@.len(),
            first_image_of(fv) == first_image_of(fv.skip(k as int)),
        decreases frags@.len() - k,
    {
        proof {
            assert(fv[k as int] == frags@[k as int]@);
            assert(fv.skip(k as int)[0] == fv[k as int]);
        }
        let r = scan_fragment(frags[k].as_str());
        match r {
            Some(u) => {
                proof {
                    assert(fv.skip(k as int).len() > 0);
                    assert(extract_of(fv.skip(k as int)[0]) == Some(u@));
                    assert(first_image_of(fv.skip(k as int)) == Some(u@));
                }
                return Some(u);
            },
            None => {},
        }
        proof {
            assert(fv.skip(k as int).drop_first() =~= fv.skip(k + 1));
        }
        k += 1;
    }
    proof {
        assert(fv.skip(k as int).len() == 0);
    }
    None
}

} // verus!
