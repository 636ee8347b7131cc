//! Rendering of an ordered list of image paths into one printable HTML
//! document: one image per page, in list order.
use vstd::prelude::*;

verus! {

/// The fixed document head: charset, title and the print style rules.
pub open spec fn doc_head() -> Seq<char> {
    "<!DOCTYPE html><html><head><meta charset=\"utf-8\"><title>PrintHelper</title>"@ + "<style>
        body { margin: 0; padding: 0; background: white; }
        img {
            max-width: 100%;
            max-height: 100vh;
            display: block;
            margin: 0 auto;
            object-fit: contain;
            page-break-inside: avoid;
        }
    </style>"@ + "</head><body>"@
}

/// The closing tags after the last image.
pub open spec fn doc_tail() -> Seq<char> {
    "</body></html>"@
}

/// The forced page break placed before every image but the first.
pub open spec fn page_break() -> Seq<char> {
    "<div style=\"page-break-before: always;\"></div>"@
}

pub open spec fn img_open() -> Seq<char> {
    "<img src=\"file://"@
}

pub open spec fn img_close() -> Seq<char> {
    "\">"@
}

/// `s` with every space replaced by `%20`; every other character is kept.
pub open spec fn encode_spaces(s: Seq<char>) -> Seq<char>
    decreases s.len(),
{
    if s.len() == 0 {
        Seq::empty()
    } else {
        let last = s.last();
        encode_spaces(s.drop_last()) + if last == ' ' {
            "%20"@
        } else {
            seq![last]
        }
    }
}

/// The `<img>` element for the image at position `i`, preceded by a page
/// break unless it is the first one.
pub open spec fn image_block(i: int, path: Seq<char>) -> Seq<char> {
    (if i == 0 {
        Seq::empty()
    } else {
        page_break()
    }) + img_open() + encode_spaces(path) + img_close()
}

/// The image elements for all of `paths`, in order.
pub open spec fn image_blocks(paths: Seq<Seq<char>>) -> Seq<char>
    decreases paths.len(),
{
    if paths.len() == 0 {
        Seq::empty()
    } else {
        image_blocks(paths.drop_last()) + image_block(paths.len() - 1, paths.last())
    }
}

/// The whole document for `paths`.
pub open spec fn html_doc(paths: Seq<Seq<char>>) -> Seq<char> {
    doc_head() + image_blocks(paths) + doc_tail()
}

/// Appends to `out` the `file://` URI body of `path`: the path with its
/// spaces written as `%20`.
pub fn path_to_uri(out: &mut String, path: &str)
    ensures
        final(out)@ == old(out)@ + encode_spaces(path@),
{
    let n = path.unicode_len();
    let ghost base = out@;
    let mut run_start: usize = 0;
    let mut i: usize = 0;
    while i < n
        invariant
            n == path@.len(),
            run_start <= i <= n,
            out@ == base + encode_spaces(path@.subrange(0, run_start as int)),
            encode_spaces(path@.subrange(0, i as int)) == encode_spaces(
                path@.subrange(0, run_start as int),
            ) + path@.subrange(run_start as int, i as int),
        decreases n - i,
    {
        let c = path.get_char(i);
        proof {
            assert(path@.subrange(0, i + 1).drop_last() == path@.subrange(0, i as int));
        }
        if c == ' ' {
            let run = path.substring_char(run_start, i);
            out.append(run);
            out.append("%20");
            i = i + 1;
            run_start = i;
            proof {
                assert(path@.subrange(run_start as int, i as int) =~= Seq::<char>::empty());
            }
        } else {
            proof {
                assert(path@.subrange(run_start as int, i + 1) =~= path@.subrange(
                    run_start as int,
                    i as int,
                ).push(c));
            }
            i = i + 1;
        }
    }
    let run = path.substring_char(run_start, n);
    out.append(run);
    proof {
        assert(path@.subrange(0, n as int) =~= path@);
    }
}

/// Renders `paths` into one HTML document.
pub fn generate_html(paths: &[String]) -> (r: String)
    ensures
        r@ == html_doc(paths@.map_values(|p: String| p@)),
{
    let ghost ps = paths@.map_values(|p: String| p@);
    let mut html = String::from_str(
        "<!DOCTYPE html><html><head><meta charset=\"utf-8\"><title>PrintHelper</title>",
    );
    html.append(
        "<style>
        body { margin: 0; padding: 0; background: white; }
        img {
            max-width: 100%;
            max-height: 100vh;
            display: block;
            margin: 0 auto;
            object-fit: contain;
            page-break-inside: avoid;
        }
    </style>",
    );
    html.append("</head><body>");
    assert(html@ == doc_head());
    let mut i: usize = 0;
    while i < paths.len()
        invariant
            i <= paths@.len(),
            ps == paths@.map_values(|p: String| p@),
            html@ == doc_head() + image_blocks(ps.subrange(0, i as int)),
        decreases paths@.len() - i,
    {
        if i > 0 {
            html.append("<div style=\"page-break-before: always;\"></div>");
        }
        html.append("<img src=\"file://");
        path_to_uri(&mut html, paths[i].as_str());
        html.append("\">");
        proof {
            assert(ps.subrange(0, i + 1).drop_last() =~= ps.subrange(0, i as int));
        }
        i = i + 1;
    }
    html.append("</body></html>");
    proof {
        assert(ps.subrange(0, i as int) =~= ps);
    }
    html
}

/// Export is deterministic: the same ordered path list always renders to the
/// same document.
pub proof fn lemma_export_deterministic(a: Seq<Seq<char>>, b: Seq<Seq<char>>)
    requires
        a == b,
    ensures
        html_doc(a) == html_doc(b),
{
}

} // verus!
