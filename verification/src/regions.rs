//! Region snippets: which regions are pictures, their URLs and alt texts.

use vstd::prelude::*;
use crate::logs::{ascii_lower, ascii_lower_exec, contains};
use crate::markers::find_from_exec;
use crate::ocr_page::OverlayBox;
use crate::text::{append_str, chars_of, push_char, str_eq, trim, trim_range, string_from_range};

verus! {

/// The URL at which a region's image snippet is served.
pub fn region_snippet_url(file_hash: &str, region_id: &str) -> (s: String)
    ensures
        s@ == "/api/documents/"@ + file_hash@ + "/regions/"@ + region_id@ + "/snippet"@,
{
    let mut s = "/api/documents/".to_owned();
    append_str(&mut s, file_hash);
    append_str(&mut s, "/regions/");
    append_str(&mut s, region_id);
    append_str(&mut s, "/snippet");
    s
}

pub open spec fn unbracket(c: char) -> char {
    if c == '[' || c == ']' { ' ' } else { c }
}

/// A label usable as Markdown alt text: brackets become spaces, and the
/// ends are trimmed.
pub open spec fn markdown_alt_spec(label: Seq<char>) -> Seq<char> {
    trim(label.map_values(|c: char| unbracket(c)))
}

/// The Markdown alt text for a region label.
pub fn markdown_alt(label: &str) -> (s: String)
    ensures
        s@ == markdown_alt_spec(label@),
{
    let v = chars_of(label);
    let mut w: Vec<char> = Vec::new();
    let mut i: usize = 0;
    while i < v.len()
        invariant
            i <= v@.len(),
            v@ == label@,
            w@ == v@.subrange(0, i as int).map_values(|c: char| unbracket(c)),
        decreases v@.len() - i,
    {
        let c = v[i];
        w.push(if c == '[' || c == ']' { ' ' } else { c });
        i = i + 1;
        assert(v@.subrange(0, i as int).map_values(|c: char| unbracket(c)) =~= v@.subrange(0, i - 1 as int).map_values(
            |c: char| unbracket(c),
        ).push(unbracket(c)));
    }
    assert(v@.subrange(0, v@.len() as int) =~= v@);
    let (a, b) = trim_range(&w, 0, w.len(), false);
    assert(w@.subrange(0, w@.len() as int) =~= w@);
    string_from_range(&w, a, b)
}

/// Words that mark a region as a picture.
pub open spec fn image_words() -> Seq<Seq<char>> {
    seq!["image"@, "figure"@, "picture"@, "diagram"@, "chart"@, "photo"@]
}

/// The region's label and Markdown, lowercased, mention a picture word.
/// These words are ASCII, and no other character lowercases into a run of
/// their letters, so ASCII lowercasing decides as full lowercasing would.
pub open spec fn looks_image_like(label: Seq<char>, markdown: Seq<char>) -> bool {
    let text = ascii_lower(label + seq![' '] + markdown);
    exists|k: int| 0 <= k < image_words().len() && contains(text, #[trigger] image_words()[k])
}

/// Whether a region's text suggests it is a picture.
pub fn text_looks_image_like(item: &OverlayBox) -> (b: bool)
    ensures
        b == looks_image_like(item.label@, item.content_markdown@),
{
    let mut joined = item.label.clone();
    push_char(&mut joined, ' ');
    append_str(&mut joined, item.content_markdown.as_str());
    let text = ascii_lower_exec(joined.as_str());
    let words: [&str; 6] = ["image", "figure", "picture", "diagram", "chart", "photo"];
    let ghost ws = image_words();
    assert(words@.len() == 6);
    let mut k: usize = 0;
    while k < 6
        invariant
            k <= 6,
            text@ == ascii_lower(item.label@ + seq![' '] + item.content_markdown@),
            ws == image_words(),
            forall|j: int| 0 <= j < 6 ==> (#[trigger] words@[j])@ == ws[j],
            forall|j: int| 0 <= j < k ==> !contains(text@, #[trigger] ws[j]),
        decreases 6 - k,
    {
        let w = chars_of(words[k]);
        proof {
            reveal_strlit("image");
            reveal_strlit("figure");
            reveal_strlit("picture");
            reveal_strlit("diagram");
            reveal_strlit("chart");
            reveal_strlit("photo");
        }
        assert(w@.len() > 0);
        if find_from_exec(&text, 0, &w).is_some() {
            assert(contains(text@, ws[k as int]));
            return true;
        }
        k = k + 1;
    }
    false
}

/// A region is taken for a picture exactly when its label or Markdown,
/// lowercased, mentions one of the words image, figure, picture, diagram,
/// chart or photo.
pub proof fn law_picture_words_mark_pictures(label: Seq<char>, markdown: Seq<char>)
    ensures
        looks_image_like(label, markdown) <==> {
            let text = ascii_lower(label + seq![' '] + markdown);
            ||| contains(text, "image"@)
            ||| contains(text, "figure"@)
            ||| contains(text, "picture"@)
            ||| contains(text, "diagram"@)
            ||| contains(text, "chart"@)
            ||| contains(text, "photo"@)
        },
{
    let text = ascii_lower(label + seq![' '] + markdown);
    let ws = image_words();
    assert(ws[0] == "image"@ && ws[1] == "figure"@ && ws[2] == "picture"@);
    assert(ws[3] == "diagram"@ && ws[4] == "chart"@ && ws[5] == "photo"@);
    if contains(text, "image"@) { assert(contains(text, ws[0])); }
    if contains(text, "figure"@) { assert(contains(text, ws[1])); }
    if contains(text, "picture"@) { assert(contains(text, ws[2])); }
    if contains(text, "diagram"@) { assert(contains(text, ws[3])); }
    if contains(text, "chart"@) { assert(contains(text, ws[4])); }
    if contains(text, "photo"@) { assert(contains(text, ws[5])); }
}

/// A region is a picture when its snippet was saved as one, or its text says so.
pub open spec fn image_region(b: crate::ocr_page::OverlayBoxView) -> bool {
    (b.content_html matches Some(h) && h == "image-snippet"@) || looks_image_like(b.label, b.content_markdown)
}

/// A region is a picture when its snippet was saved as one, or its text says so.
pub fn is_image_region(item: &OverlayBox) -> (b: bool)
    ensures
        b == image_region(item@),
{
    let snippet = match &item.content_html {
        Some(h) => str_eq(h.as_str(), "image-snippet"),
        None => false,
    };
    snippet || text_looks_image_like(item)
}

/// Where the snippet image of region `region_id` of the document
/// `file_hash` is kept under the cache directory.
pub fn region_snippet_path(cache_dir: &str, file_hash: &str, region_id: &str, sep: char) -> (r: String)
    ensures
        r@ == crate::config::joined(
            crate::config::joined(crate::config::joined(cache_dir@, "region-snippets"@, sep), file_hash@, sep),
            region_id@ + ".png"@,
            sep,
        ),
{
    let dir = crate::config::join_path(cache_dir, "region-snippets", sep);
    let doc = crate::config::join_path(dir.as_str(), file_hash, sep);
    let mut name = region_id.to_owned();
    append_str(&mut name, ".png");
    crate::config::join_path(doc.as_str(), name.as_str(), sep)
}

/// The Markdown that shows a region's saved snippet.
pub open spec fn snippet_markdown(label: Seq<char>, file_hash: Seq<char>, region_id: Seq<char>) -> Seq<char> {
    "!["@ + markdown_alt_spec(label) + "]("@ + "/api/documents/"@ + file_hash + "/regions/"@ + region_id + "/snippet"@ + ")"@
}

/// Points a region whose snippet image was saved at that image: its
/// Markdown shows the snippet and its HTML marks it as one.
pub fn mark_image_snippet(item: &mut OverlayBox, file_hash: &str)
    ensures
        final(item).content_markdown@ == snippet_markdown(old(item).label@, file_hash@, old(item).region_id@),
        final(item).content_html matches Some(h) && h@ == "image-snippet"@,
        final(item).label == old(item).label,
        final(item).region_id == old(item).region_id,
        final(item).annotation_id == old(item).annotation_id,
        final(item).source_region_key == old(item).source_region_key,
        final(item).bbox == old(item).bbox,
        final(item).page_no == old(item).page_no,
{
    let url = region_snippet_url(file_hash, item.region_id.as_str());
    let alt = markdown_alt(item.label.as_str());
    let mut markdown = "![".to_owned();
    append_str(&mut markdown, alt.as_str());
    append_str(&mut markdown, "](");
    append_str(&mut markdown, url.as_str());
    append_str(&mut markdown, ")");
    assert(markdown@ =~= snippet_markdown(item.label@, file_hash@, item.region_id@));
    item.content_markdown = markdown;
    item.content_html = Some("image-snippet".to_owned());
}

/// A region whose snippet was saved is taken for a picture from then on.
pub proof fn law_marked_snippet_is_image_region(b: crate::ocr_page::OverlayBoxView)
    requires
        b.content_html == Some("image-snippet"@),
    ensures
        image_region(b),
{
}

} // verus!
