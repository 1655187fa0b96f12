//! Files of a draft: which are accepted, and whether they are appended or
//! embedded.

use vstd::prelude::*;

use crate::text::chars_of;
use crate::text::control_char;
use crate::text::copy_of;
use crate::text::occurs_at;
use crate::text::contains_text;
use crate::text::decimal;
use crate::text::decimal_string;
use crate::text::find_last;
use crate::text::find_last_at;
use crate::text::is_control;
use crate::text::join;
use crate::text::joined;
use crate::text::lowercase;
use crate::text::lowercase_of;
use crate::text::opt_str;
use crate::text::opt_text;
use crate::text::same_text;
use crate::text::string_of_range;
use crate::text::text_begins_with;
use crate::text::texts;
use crate::text::begins_with;
use crate::tools::draft::markers::stray_from;
use crate::tools::draft::markers::stray_at;
use crate::tools::draft::markers::lemma_stray_is_found;
use crate::tools::draft::markers::fragment_at;
use crate::tools::draft::markers::cid_char;
use crate::tools::draft::markers::first_appearances;
use crate::tools::draft::markers::inspect_markers;
use crate::tools::draft::markers::lemma_all_appear;
use crate::tools::draft::markers::is_cid_char;
use crate::tools::draft::markers::is_valid_cid;
use crate::tools::draft::markers::markers;
use crate::tools::draft::markers::referenced_ids;
use crate::tools::draft::markers::valid_cid;
use crate::tools::draft::render::ref_views;
use crate::tools::draft::render::InlineRef;
use crate::tools::draft::render::RefView;

verus! {

// ---------------------------------------------------------------------------
// Header values
// ---------------------------------------------------------------------------

/// A character that could end a header line: a control character, one of the
/// two Unicode line separators, or the byte order mark.
pub open spec fn breaks_header(c: char) -> bool {
    is_control(c) || c == '\u{2028}' || c == '\u{2029}' || c == '\u{feff}'
}

/// A text without the characters that could end a header line.
pub open spec fn header_value(s: Seq<char>) -> Seq<char> {
    s.filter(|c: char| !breaks_header(c))
}

/// Strips what could end a header line from a value that is written into one.
pub fn sanitize_header_value(s: &str) -> (out: String)
    ensures
        out@ == header_value(s@),
{
    let cs = chars_of(s);
    let mut out = String::new();
    let mut i: usize = 0;
    while i < cs.len()
        invariant
            cs@ == s@,
            i <= cs@.len(),
            out@ == header_value(s@.take(i as int)),
        decreases cs@.len() - i,
    {
        proof {
            assert(s@.take(i as int + 1).drop_last() =~= s@.take(i as int));
            reveal_with_fuel(Seq::filter, 1);
        }
        let c: char = cs[i];
        if !(control_char(c) || c == '\u{2028}' || c == '\u{2029}' || c == '\u{feff}') {
            out.push(c);
        }
        i += 1;
    }
    proof {
        assert(s@.take(s@.len() as int) =~= s@);
    }
    out
}

/// A text in which nothing could end a header line.
pub open spec fn one_line(s: Seq<char>) -> bool {
    forall|i: int| 0 <= i < s.len() ==> !breaks_header(#[trigger] s[i])
}

/// A sanitized value cannot end its header line, whatever it was made from.
pub proof fn header_values_stay_on_their_line(s: Seq<char>)
    ensures
        one_line(header_value(s)),
    decreases s.len(),
{
    reveal_with_fuel(Seq::filter, 1);
    if s.len() > 0 {
        header_values_stay_on_their_line(s.drop_last());
    }
}

/// A value that cannot end its line is left as it is.
pub proof fn clean_header_values_are_kept(s: Seq<char>)
    requires
        one_line(s),
    ensures
        header_value(s) == s,
    decreases s.len(),
{
    reveal_with_fuel(Seq::filter, 1);
    if s.len() > 0 {
        assert(one_line(s.drop_last()));
        clean_header_values_are_kept(s.drop_last());
        assert(!breaks_header(s[s.len() - 1]));
        assert(s.drop_last().push(s.last()) =~= s);
    } else {
        assert(header_value(s) =~= s);
    }
}

// ---------------------------------------------------------------------------
// File types
// ---------------------------------------------------------------------------

/// The content type of a file with an extension in lower case.
pub open spec fn type_of_extension(ext: Seq<char>) -> Seq<char> {
    if ext == "pdf"@ {
        "application/pdf"@
    } else if ext == "zip"@ {
        "application/zip"@
    } else if ext == "gz"@ || ext == "gzip"@ {
        "application/gzip"@
    } else if ext == "json"@ {
        "application/json"@
    } else if ext == "xml"@ {
        "application/xml"@
    } else if ext == "csv"@ {
        "text/csv"@
    } else if ext == "txt"@ {
        "text/plain"@
    } else if ext == "html"@ || ext == "htm"@ {
        "text/html"@
    } else if ext == "png"@ {
        "image/png"@
    } else if ext == "jpg"@ || ext == "jpeg"@ {
        "image/jpeg"@
    } else if ext == "gif"@ {
        "image/gif"@
    } else if ext == "svg"@ {
        "image/svg+xml"@
    } else if ext == "webp"@ {
        "image/webp"@
    } else if ext == "mp3"@ {
        "audio/mpeg"@
    } else if ext == "wav"@ {
        "audio/wav"@
    } else if ext == "mp4"@ {
        "video/mp4"@
    } else if ext == "doc"@ {
        "application/msword"@
    } else if ext == "docx"@ {
        "application/vnd.openxmlformats-officedocument.wordprocessingml.document"@
    } else if ext == "xls"@ {
        "application/vnd.ms-excel"@
    } else if ext == "xlsx"@ {
        "application/vnd.openxmlformats-officedocument.spreadsheetml.sheet"@
    } else if ext == "ppt"@ {
        "application/vnd.ms-powerpoint"@
    } else if ext == "pptx"@ {
        "application/vnd.openxmlformats-officedocument.presentationml.presentation"@
    } else if ext == "ics"@ {
        "text/calendar"@
    } else if ext == "eml"@ {
        "message/rfc822"@
    } else {
        "application/octet-stream"@
    }
}

proof fn lemma_extensions()
    ensures
        "pdf"@.len() == 3 && "pdf"@[0] == 'p' && "pdf"@[1] == 'd' && "pdf"@[2] == 'f',
        "zip"@.len() == 3 && "zip"@[0] == 'z' && "zip"@[1] == 'i' && "zip"@[2] == 'p',
        "gz"@.len() == 2 && "gz"@[0] == 'g' && "gz"@[1] == 'z',
        "gzip"@.len() == 4 && "gzip"@[0] == 'g' && "gzip"@[1] == 'z' && "gzip"@[2] == 'i' && "gzip"@[3] == 'p',
        "json"@.len() == 4 && "json"@[0] == 'j' && "json"@[1] == 's' && "json"@[2] == 'o' && "json"@[3] == 'n',
        "xml"@.len() == 3 && "xml"@[0] == 'x' && "xml"@[1] == 'm' && "xml"@[2] == 'l',
        "csv"@.len() == 3 && "csv"@[0] == 'c' && "csv"@[1] == 's' && "csv"@[2] == 'v',
        "txt"@.len() == 3 && "txt"@[0] == 't' && "txt"@[1] == 'x' && "txt"@[2] == 't',
        "html"@.len() == 4 && "html"@[0] == 'h' && "html"@[1] == 't' && "html"@[2] == 'm' && "html"@[3] == 'l',
        "htm"@.len() == 3 && "htm"@[0] == 'h' && "htm"@[1] == 't' && "htm"@[2] == 'm',
        "png"@.len() == 3 && "png"@[0] == 'p' && "png"@[1] == 'n' && "png"@[2] == 'g',
        "jpg"@.len() == 3 && "jpg"@[0] == 'j' && "jpg"@[1] == 'p' && "jpg"@[2] == 'g',
        "jpeg"@.len() == 4 && "jpeg"@[0] == 'j' && "jpeg"@[1] == 'p' && "jpeg"@[2] == 'e' && "jpeg"@[3] == 'g',
        "gif"@.len() == 3 && "gif"@[0] == 'g' && "gif"@[1] == 'i' && "gif"@[2] == 'f',
        "svg"@.len() == 3 && "svg"@[0] == 's' && "svg"@[1] == 'v' && "svg"@[2] == 'g',
        "webp"@.len() == 4 && "webp"@[0] == 'w' && "webp"@[1] == 'e' && "webp"@[2] == 'b' && "webp"@[3] == 'p',
        "mp3"@.len() == 3 && "mp3"@[0] == 'm' && "mp3"@[1] == 'p' && "mp3"@[2] == '3',
        "wav"@.len() == 3 && "wav"@[0] == 'w' && "wav"@[1] == 'a' && "wav"@[2] == 'v',
        "mp4"@.len() == 3 && "mp4"@[0] == 'm' && "mp4"@[1] == 'p' && "mp4"@[2] == '4',
        "doc"@.len() == 3 && "doc"@[0] == 'd' && "doc"@[1] == 'o' && "doc"@[2] == 'c',
        "docx"@.len() == 4 && "docx"@[0] == 'd' && "docx"@[1] == 'o' && "docx"@[2] == 'c' && "docx"@[3] == 'x',
        "xls"@.len() == 3 && "xls"@[0] == 'x' && "xls"@[1] == 'l' && "xls"@[2] == 's',
        "xlsx"@.len() == 4 && "xlsx"@[0] == 'x' && "xlsx"@[1] == 'l' && "xlsx"@[2] == 's' && "xlsx"@[3] == 'x',
        "ppt"@.len() == 3 && "ppt"@[0] == 'p' && "ppt"@[1] == 'p' && "ppt"@[2] == 't',
        "pptx"@.len() == 4 && "pptx"@[0] == 'p' && "pptx"@[1] == 'p' && "pptx"@[2] == 't' && "pptx"@[3] == 'x',
        "ics"@.len() == 3 && "ics"@[0] == 'i' && "ics"@[1] == 'c' && "ics"@[2] == 's',
        "eml"@.len() == 3 && "eml"@[0] == 'e' && "eml"@[1] == 'm' && "eml"@[2] == 'l',
{
    reveal_strlit("pdf");
    reveal_strlit("zip");
    reveal_strlit("gz");
    reveal_strlit("gzip");
    reveal_strlit("json");
    reveal_strlit("xml");
    reveal_strlit("csv");
    reveal_strlit("txt");
    reveal_strlit("html");
    reveal_strlit("htm");
    reveal_strlit("png");
    reveal_strlit("jpg");
    reveal_strlit("jpeg");
    reveal_strlit("gif");
    reveal_strlit("svg");
    reveal_strlit("webp");
    reveal_strlit("mp3");
    reveal_strlit("wav");
    reveal_strlit("mp4");
    reveal_strlit("doc");
    reveal_strlit("docx");
    reveal_strlit("xls");
    reveal_strlit("xlsx");
    reveal_strlit("ppt");
    reveal_strlit("pptx");
    reveal_strlit("ics");
    reveal_strlit("eml");
}

/// The type of a file bears the name of its extension, or tells what the file is
/// for, under the kind of thing that it is.
pub proof fn types_fit_their_extension(ext: Seq<char>)
    ensures
        (ext == "pdf"@ || ext == "zip"@ || ext == "json"@ || ext == "xml"@) ==> type_of_extension(ext) == "application/"@ + ext,
        (ext == "csv"@ || ext == "html"@) ==> type_of_extension(ext) == "text/"@ + ext,
        (ext == "png"@ || ext == "jpeg"@ || ext == "gif"@ || ext == "webp"@) ==> type_of_extension(ext) == "image/"@ + ext,
        ext == "wav"@ ==> type_of_extension(ext) == "audio/"@ + ext,
        ext == "mp4"@ ==> type_of_extension(ext) == "video/"@ + ext,
        type_of_extension("jpg"@) == type_of_extension("jpeg"@),
        type_of_extension("gz"@) == type_of_extension("gzip"@),
        type_of_extension("htm"@) == type_of_extension("html"@),
        type_of_extension("svg"@) == "image/svg+xml"@,
        (ext == "doc"@ || ext == "docx"@) ==> contains_text(type_of_extension(ext), "word"@),
        ext == "xls"@ ==> contains_text(type_of_extension(ext), "excel"@),
        ext == "xlsx"@ ==> contains_text(type_of_extension(ext), "spreadsheet"@),
        ext == "ppt"@ ==> contains_text(type_of_extension(ext), "powerpoint"@),
        ext == "pptx"@ ==> contains_text(type_of_extension(ext), "presentation"@),
{
    lemma_extensions();
    reveal_strlit("application/");
    reveal_strlit("text/");
    reveal_strlit("image/");
    reveal_strlit("audio/");
    reveal_strlit("video/");
    assert("application/pdf"@ =~= "application/"@ + "pdf"@) by {
        reveal_strlit("application/pdf");
        reveal_strlit("pdf");
    }
    assert("application/zip"@ =~= "application/"@ + "zip"@) by {
        reveal_strlit("application/zip");
        reveal_strlit("zip");
    }
    assert("application/json"@ =~= "application/"@ + "json"@) by {
        reveal_strlit("application/json");
        reveal_strlit("json");
    }
    assert("application/xml"@ =~= "application/"@ + "xml"@) by {
        reveal_strlit("application/xml");
        reveal_strlit("xml");
    }
    assert("text/csv"@ =~= "text/"@ + "csv"@) by {
        reveal_strlit("text/csv");
        reveal_strlit("csv");
    }
    assert("text/html"@ =~= "text/"@ + "html"@) by {
        reveal_strlit("text/html");
        reveal_strlit("html");
    }
    assert("image/png"@ =~= "image/"@ + "png"@) by {
        reveal_strlit("image/png");
        reveal_strlit("png");
    }
    assert("image/jpeg"@ =~= "image/"@ + "jpeg"@) by {
        reveal_strlit("image/jpeg");
        reveal_strlit("jpeg");
    }
    assert("image/gif"@ =~= "image/"@ + "gif"@) by {
        reveal_strlit("image/gif");
        reveal_strlit("gif");
    }
    assert("image/webp"@ =~= "image/"@ + "webp"@) by {
        reveal_strlit("image/webp");
        reveal_strlit("webp");
    }
    assert("audio/wav"@ =~= "audio/"@ + "wav"@) by {
        reveal_strlit("audio/wav");
        reveal_strlit("wav");
    }
    assert("video/mp4"@ =~= "video/"@ + "mp4"@) by {
        reveal_strlit("video/mp4");
        reveal_strlit("mp4");
    }
    assert(contains_text("application/msword"@, "word"@)) by {
        reveal_strlit("application/msword");
        reveal_strlit("word");
        assert("application/msword"@.subrange(14, 18) =~= "word"@);
        assert(occurs_at("application/msword"@, "word"@, 14));
    }
    assert(contains_text("application/vnd.openxmlformats-officedocument.wordprocessingml.document"@, "word"@)) by {
        reveal_strlit("application/vnd.openxmlformats-officedocument.wordprocessingml.document");
        reveal_strlit("word");
        assert("application/vnd.openxmlformats-officedocument.wordprocessingml.document"@.subrange(46, 50) =~= "word"@);
        assert(occurs_at("application/vnd.openxmlformats-officedocument.wordprocessingml.document"@, "word"@, 46));
    }
    assert(contains_text("application/vnd.ms-excel"@, "excel"@)) by {
        reveal_strlit("application/vnd.ms-excel");
        reveal_strlit("excel");
        assert("application/vnd.ms-excel"@.subrange(19, 24) =~= "excel"@);
        assert(occurs_at("application/vnd.ms-excel"@, "excel"@, 19));
    }
    assert(contains_text("application/vnd.openxmlformats-officedocument.spreadsheetml.sheet"@, "spreadsheet"@)) by {
        reveal_strlit("application/vnd.openxmlformats-officedocument.spreadsheetml.sheet");
        reveal_strlit("spreadsheet");
        assert("application/vnd.openxmlformats-officedocument.spreadsheetml.sheet"@.subrange(46, 57) =~= "spreadsheet"@);
        assert(occurs_at("application/vnd.openxmlformats-officedocument.spreadsheetml.sheet"@, "spreadsheet"@, 46));
    }
    assert(contains_text("application/vnd.ms-powerpoint"@, "powerpoint"@)) by {
        reveal_strlit("application/vnd.ms-powerpoint");
        reveal_strlit("powerpoint");
        assert("application/vnd.ms-powerpoint"@.subrange(19, 29) =~= "powerpoint"@);
        assert(occurs_at("application/vnd.ms-powerpoint"@, "powerpoint"@, 19));
    }
    assert(contains_text("application/vnd.openxmlformats-officedocument.presentationml.presentation"@, "presentation"@)) by {
        reveal_strlit("application/vnd.openxmlformats-officedocument.presentationml.presentation");
        reveal_strlit("presentation");
        assert("application/vnd.openxmlformats-officedocument.presentationml.presentation"@.subrange(46, 58) =~= "presentation"@);
        assert(occurs_at("application/vnd.openxmlformats-officedocument.presentationml.presentation"@, "presentation"@, 46));
    }
}

/// The content type of a file, by its extension in any case.
pub fn mime_type_from_extension(ext: &str) -> (t: &'static str)
    ensures
        t@ == type_of_extension(lowercase(ext@)),
{
    let lower = lowercase_of(ext);
    let e = lower.as_str();
    if same_text(e, "pdf") {
        "application/pdf"
    } else if same_text(e, "zip") {
        "application/zip"
    } else if same_text(e, "gz") || same_text(e, "gzip") {
        "application/gzip"
    } else if same_text(e, "json") {
        "application/json"
    } else if same_text(e, "xml") {
        "application/xml"
    } else if same_text(e, "csv") {
        "text/csv"
    } else if same_text(e, "txt") {
        "text/plain"
    } else if same_text(e, "html") || same_text(e, "htm") {
        "text/html"
    } else if same_text(e, "png") {
        "image/png"
    } else if same_text(e, "jpg") || same_text(e, "jpeg") {
        "image/jpeg"
    } else if same_text(e, "gif") {
        "image/gif"
    } else if same_text(e, "svg") {
        "image/svg+xml"
    } else if same_text(e, "webp") {
        "image/webp"
    } else if same_text(e, "mp3") {
        "audio/mpeg"
    } else if same_text(e, "wav") {
        "audio/wav"
    } else if same_text(e, "mp4") {
        "video/mp4"
    } else if same_text(e, "doc") {
        "application/msword"
    } else if same_text(e, "docx") {
        "application/vnd.openxmlformats-officedocument.wordprocessingml.document"
    } else if same_text(e, "xls") {
        "application/vnd.ms-excel"
    } else if same_text(e, "xlsx") {
        "application/vnd.openxmlformats-officedocument.spreadsheetml.sheet"
    } else if same_text(e, "ppt") {
        "application/vnd.ms-powerpoint"
    } else if same_text(e, "pptx") {
        "application/vnd.openxmlformats-officedocument.presentationml.presentation"
    } else if same_text(e, "ics") {
        "text/calendar"
    } else if same_text(e, "eml") {
        "message/rfc822"
    } else {
        "application/octet-stream"
    }
}

/// A type that an `<img>` tag can show: a raster image. SVG can carry script.
pub open spec fn embeddable(content_type: Seq<char>) -> bool {
    begins_with(content_type, "image/"@) && content_type != "image/svg+xml"@
}

// ---------------------------------------------------------------------------
// Content ids
// ---------------------------------------------------------------------------

/// A file name without its extension.
pub open spec fn file_stem(filename: Seq<char>) -> Seq<char> {
    match find_last(filename, "."@, filename.len() as int) {
        Some(i) => filename.take(i),
        None => filename,
    }
}

/// A name from position `i` on, with each run of characters that an id may not
/// hold made into one dash.
pub open spec fn dashed_from(s: Seq<char>, i: int, after_dash: bool) -> Seq<char>
    decreases s.len() - i,
{
    if i < 0 || i >= s.len() {
        Seq::empty()
    } else if cid_char(s[i]) {
        seq![s[i]] + dashed_from(s, i + 1, false)
    } else if after_dash {
        dashed_from(s, i + 1, true)
    } else {
        seq!['-'] + dashed_from(s, i + 1, true)
    }
}

/// A text without the dashes that it begins with.
pub open spec fn after_dashes(s: Seq<char>) -> Seq<char>
    decreases s.len(),
{
    if s.len() > 0 && s[0] == '-' {
        after_dashes(s.drop_first())
    } else {
        s
    }
}

/// A text without the dashes that it ends with.
pub open spec fn before_dashes(s: Seq<char>) -> Seq<char>
    decreases s.len(),
{
    if s.len() > 0 && s.last() == '-' {
        before_dashes(s.drop_last())
    } else {
        s
    }
}

/// The id that a file name gives: its stem with dashes for what an id may not
/// hold, and none at either end; `image` where nothing is left.
pub open spec fn derived_cid(filename: Seq<char>) -> Seq<char> {
    let core = before_dashes(after_dashes(dashed_from(file_stem(filename), 0, false)));
    if core.len() == 0 {
        "image"@
    } else {
        core
    }
}

/// Computes [`derived_cid`].
pub fn derive_cid(filename: &str) -> (out: String)
    ensures
        out@ == derived_cid(filename@),
{
    let cs = chars_of(filename);
    let dot = chars_of(".");
    proof {
        reveal_strlit(".");
    }
    let n: usize = match find_last_at(&cs, &dot) {
        Some(i) => i,
        None => cs.len(),
    };
    let ghost stem = file_stem(filename@);
    proof {
        assert(stem =~= cs@.take(n as int));
    }
    let mut dashed: Vec<char> = Vec::new();
    let mut after_dash: bool = false;
    let mut i: usize = 0;
    proof {
        assert(dashed@ + dashed_from(stem, 0, false) =~= dashed_from(stem, 0, false));
    }
    while i < n
        invariant
            i <= n <= cs@.len(),
            stem == cs@.take(n as int),
            dashed@ + dashed_from(stem, i as int, after_dash) == dashed_from(stem, 0, false),
        decreases n - i,
    {
        let c: char = cs[i];
        let ghost before = dashed@;
        proof {
            assert(stem[i as int] == c);
        }
        if is_cid_char(c) {
            dashed.push(c);
            proof {
                let rest = dashed_from(stem, i + 1, false);
                assert(before + (seq![c] + rest) =~= dashed@ + rest);
            }
            after_dash = false;
        } else if !after_dash {
            dashed.push('-');
            proof {
                let rest = dashed_from(stem, i + 1, true);
                assert(before + (seq!['-'] + rest) =~= dashed@ + rest);
            }
            after_dash = true;
        }
        i += 1;
    }
    proof {
        assert(dashed@ + Seq::<char>::empty() =~= dashed@);
    }
    let m: usize = dashed.len();
    let mut a: usize = 0;
    proof {
        assert(dashed@.subrange(0, m as int) =~= dashed@);
    }
    while a < m && dashed[a] == '-'
        invariant
            m == dashed@.len(),
            a <= m,
            after_dashes(dashed@) == after_dashes(dashed@.subrange(a as int, m as int)),
        decreases m - a,
    {
        proof {
            assert(dashed@.subrange(a as int, m as int).drop_first() =~= dashed@.subrange(
                a + 1,
                m as int,
            ));
        }
        a += 1;
    }
    let ghost tail = dashed@.subrange(a as int, m as int);
    let mut z: usize = m;
    while z > a && dashed[z - 1] == '-'
        invariant
            m == dashed@.len(),
            a <= z <= m,
            before_dashes(tail) == before_dashes(dashed@.subrange(a as int, z as int)),
        decreases z,
    {
        proof {
            assert(dashed@.subrange(a as int, z as int).drop_last() =~= dashed@.subrange(
                a as int,
                z - 1,
            ));
        }
        z -= 1;
    }
    if a == z {
        copy_of("image")
    } else {
        string_of_range(&dashed, a, z)
    }
}

/// All characters of a text may stand in an id.
pub open spec fn all_cid_chars(s: Seq<char>) -> bool {
    forall|i: int| 0 <= i < s.len() ==> cid_char(#[trigger] s[i])
}

proof fn lemma_dashed(s: Seq<char>, i: int, after_dash: bool)
    ensures
        all_cid_chars(dashed_from(s, i, after_dash)),
    decreases s.len() - i,
{
    if 0 <= i < s.len() {
        if cid_char(s[i]) {
            lemma_dashed(s, i + 1, false);
        } else {
            lemma_dashed(s, i + 1, true);
        }
    }
}

proof fn lemma_after_dashes(s: Seq<char>)
    requires
        all_cid_chars(s),
    ensures
        all_cid_chars(after_dashes(s)),
    decreases s.len(),
{
    if s.len() > 0 && s[0] == '-' {
        assert forall|i: int| 0 <= i < s.drop_first().len() implies cid_char(
            #[trigger] s.drop_first()[i],
        ) by {
            assert(cid_char(s[i + 1]));
        }
        lemma_after_dashes(s.drop_first());
    }
}

proof fn lemma_before_dashes(s: Seq<char>)
    requires
        all_cid_chars(s),
    ensures
        all_cid_chars(before_dashes(s)),
    decreases s.len(),
{
    if s.len() > 0 && s.last() == '-' {
        assert forall|i: int| 0 <= i < s.drop_last().len() implies cid_char(
            #[trigger] s.drop_last()[i],
        ) by {
            assert(cid_char(s[i]));
        }
        lemma_before_dashes(s.drop_last());
    }
}

/// Whatever a file is called, the id derived from its name is not empty and
/// holds only characters that an id may hold.
pub proof fn derived_cids_are_safe(filename: Seq<char>)
    ensures
        derived_cid(filename).len() > 0,
        all_cid_chars(derived_cid(filename)),
{
    lemma_dashed(file_stem(filename), 0, false);
    lemma_after_dashes(dashed_from(file_stem(filename), 0, false));
    lemma_before_dashes(after_dashes(dashed_from(file_stem(filename), 0, false)));
    reveal_strlit("image");
    assert("image"@ =~= seq!['i', 'm', 'a', 'g', 'e']);
}

proof fn lemma_nothing_dashed(s: Seq<char>, i: int)
    requires
        0 <= i <= s.len(),
        all_cid_chars(s),
    ensures
        dashed_from(s, i, false) == s.skip(i),
    decreases s.len() - i,
{
    if i < s.len() {
        lemma_nothing_dashed(s, i + 1);
        assert(cid_char(s[i]));
        assert(seq![s[i]] + s.skip(i + 1) =~= s.skip(i));
    } else {
        assert(s.skip(i) =~= Seq::<char>::empty());
    }
}

proof fn lemma_last_dot(name: Seq<char>, ext: Seq<char>, i: int)
    requires
        !ext.contains('.'),
        name.len() <= i <= name.len() + 1 + ext.len(),
    ensures
        find_last(name + seq!['.'] + ext, seq!['.'], i) == Some(name.len() as int),
    decreases i,
{
    let s = name + seq!['.'] + ext;
    let n = name.len() as int;
    if i == n {
        assert(s.subrange(n, n + 1) =~= seq!['.']);
    } else {
        lemma_last_dot(name, ext, i - 1);
        if occurs_at(s, seq!['.'], i) {
            assert(s.subrange(i, i + 1)[0] == '.');
            assert(s[i] == ext[i - n - 1]);
        }
    }
}

/// The id that a file name gives is the name without its extension, where an id may
/// hold all of it.
pub proof fn ids_come_from_file_names(name: Seq<char>, ext: Seq<char>)
    requires
        name.len() > 0,
        all_cid_chars(name),
        name[0] != '-',
        name.last() != '-',
        !ext.contains('.'),
    ensures
        derived_cid(name + seq!['.'] + ext) == name,
{
    reveal_strlit(".");
    assert("."@ =~= seq!['.']);
    let s = name + seq!['.'] + ext;
    lemma_last_dot(name, ext, s.len() as int);
    assert(s.take(name.len() as int) =~= name);
    lemma_nothing_dashed(name, 0);
    assert(name.skip(0) =~= name);
    assert(after_dashes(name) == name);
    assert(before_dashes(name) == name);
}

// ---------------------------------------------------------------------------
// Requests
// ---------------------------------------------------------------------------

/// One entry of a draft's list of attachments: a path, or a path with how the
/// file is placed.
pub enum AttachmentSpec {
    /// A file that is appended.
    Path(String),
    /// A file with its placement.
    Detailed { path: String, inline: Option<bool>, cid: Option<String> },
}

impl AttachmentSpec {
    pub open spec fn path_text(self) -> Seq<char> {
        match self {
            AttachmentSpec::Path(p) => p@,
            AttachmentSpec::Detailed { path, .. } => path@,
        }
    }

    /// The path of the file.
    pub fn path(&self) -> (p: &str)
        ensures
            p@ == self.path_text(),
    {
        match self {
            AttachmentSpec::Path(p) => p.as_str(),
            AttachmentSpec::Detailed { path, .. } => path.as_str(),
        }
    }

    pub open spec fn embedded(self) -> bool {
        match self {
            AttachmentSpec::Path(_) => false,
            AttachmentSpec::Detailed { inline, cid, .. } => match inline {
                Some(b) => b,
                None => cid is Some,
            },
        }
    }

    /// Whether the file is embedded: an id alone means so, an explicit `inline`
    /// decides.
    pub fn is_inline(&self) -> (yes: bool)
        ensures
            yes == self.embedded(),
    {
        match self {
            AttachmentSpec::Path(_) => false,
            AttachmentSpec::Detailed { inline, cid, .. } => match inline {
                Some(b) => *b,
                None => cid.is_some(),
            },
        }
    }

    pub open spec fn given_cid(self) -> Option<Seq<char>> {
        match self {
            AttachmentSpec::Path(_) => None,
            AttachmentSpec::Detailed { cid, .. } => opt_text(cid),
        }
    }

    /// The id that the request gives the file.
    pub fn explicit_cid(&self) -> (cid: Option<&str>)
        ensures
            opt_str(cid) == self.given_cid(),
    {
        match self {
            AttachmentSpec::Path(_) => None,
            AttachmentSpec::Detailed { cid, .. } => match cid {
                Some(c) => Some(c.as_str()),
                None => None,
            },
        }
    }
}

// ---------------------------------------------------------------------------
// Allowed directories
// ---------------------------------------------------------------------------

/// A resolved path lies in a resolved directory: it is the directory, or goes on
/// behind it with a slash.
pub open spec fn path_within(path: Seq<u8>, dir: Seq<u8>) -> bool {
    dir.is_prefix_of(path) && (path.len() == dir.len() || (dir.len() > 0 && dir.last() == 47)
        || path[dir.len() as int] == 47)
}

/// Decides [`path_within`].
pub fn is_within(path: &Vec<u8>, dir: &Vec<u8>) -> (yes: bool)
    ensures
        yes == path_within(path@, dir@),
{
    if dir.len() > path.len() {
        return false;
    }
    let n: usize = dir.len();
    let mut i: usize = 0;
    while i < n
        invariant
            n == dir@.len(),
            n <= path@.len(),
            i <= n,
            forall|j: int| 0 <= j < i ==> path@[j] == dir@[j],
        decreases n - i,
    {
        if path[i] != dir[i] {
            proof {
                assert(path@.subrange(0, n as int)[i as int] == path@[i as int]);
            }
            return false;
        }
        i += 1;
    }
    proof {
        assert(path@.subrange(0, n as int) =~= dir@);
    }
    path.len() == n || (n > 0 && dir[n - 1] == 47) || path[n] == 47
}

/// A path lies in a directory exactly where it is the directory itself or goes on
/// below it: a directory whose name merely begins like it is another one.
pub proof fn paths_lie_below_their_directory(dir: Seq<u8>, name: Seq<u8>, other: Seq<u8>)
    requires
        dir.len() > 0,
        dir.last() != 47,
    ensures
        path_within(dir, dir),
        path_within(dir + seq![47u8] + name, dir),
        other.len() > 0 && other[0] != 47 ==> !path_within(dir + other, dir),
        path_within(other, dir) ==> other == dir || (other.len() > dir.len() && other.take(
            dir.len() as int,
        ) == dir && other[dir.len() as int] == 47),
{
    let below = dir + seq![47u8] + name;
    assert(below.subrange(0, dir.len() as int) =~= dir);
    assert(dir.subrange(0, dir.len() as int) =~= dir);
    if other.len() > 0 {
        assert((dir + other)[dir.len() as int] == other[0]);
    }
    if path_within(other, dir) {
        if other.len() == dir.len() {
            assert(other =~= dir);
        }
        assert(other.take(dir.len() as int) =~= dir);
    }
}

/// The way Rust shows a list of texts for debugging.
pub uninterp spec fn shown_list(l: Seq<Seq<char>>) -> Seq<char>;

/// `format!` with `{:?}` of a list of strings: which depends on the strings
/// alone.
#[verifier::external_body]
fn show_list(l: &Vec<String>) -> (out: String)
    ensures
        out@ == shown_list(texts(l@)),
{
    format!("{l:?}")
}

/// Accepts a resolved path that lies in one of the resolved directories. `shown`
/// is the path in words, `configured` are the directories as they were written.
pub fn validate_attachment_path(
    path: &Vec<u8>,
    allowed: &Vec<Vec<u8>>,
    shown: &str,
    configured: &Vec<String>,
) -> (r: Result<(), String>)
    ensures
        r is Ok <==> exists|k: int|
            0 <= k < allowed@.len() && path_within(path@, (#[trigger] allowed@[k])@),
        r matches Err(text) ==> text@ == "Attachment path \""@ + shown@
            + "\" is not within any allowed directory. Configured allowed_attachment_dirs: "@
            + shown_list(texts(configured@)),
{
    let mut k: usize = 0;
    while k < allowed.len()
        invariant
            k <= allowed@.len(),
            forall|j: int| 0 <= j < k ==> !path_within(path@, (#[trigger] allowed@[j])@),
        decreases allowed@.len() - k,
    {
        if is_within(path, &allowed[k]) {
            return Ok(());
        }
        k += 1;
    }
    let mut text = copy_of("Attachment path \"");
    text.append(shown);
    text.append("\" is not within any allowed directory. Configured allowed_attachment_dirs: ");
    let dirs = show_list(configured);
    text.append(dirs.as_str());
    Err(text)
}

/// What a path that cannot be resolved is answered.
pub fn unresolvable_path_text(path: &str, reason: &str) -> (out: String)
    ensures
        out@ == "Cannot resolve attachment path \""@ + path@ + "\": "@ + reason@,
{
    let mut text = copy_of("Cannot resolve attachment path \"");
    text.append(path);
    text.append("\": ");
    text.append(reason);
    text
}

/// What a file that cannot be read is answered.
pub fn unreadable_file_text(path: &str, reason: &str) -> (out: String)
    ensures
        out@ == "Failed to read attachment \""@ + path@ + "\": "@ + reason@,
{
    let mut text = copy_of("Failed to read attachment \"");
    text.append(path);
    text.append("\": ");
    text.append(reason);
    text
}

// ---------------------------------------------------------------------------
// Placing files
// ---------------------------------------------------------------------------

/// A file that is embedded in the body.
pub struct InlineImage {
    pub cid: String,
    pub filename: String,
    pub content_type: &'static str,
    pub bytes: Vec<u8>,
}

/// The value of an embedded file.
pub struct ImageView {
    pub cid: Seq<char>,
    pub filename: Seq<char>,
    pub content_type: Seq<char>,
    pub bytes: Seq<u8>,
}

impl View for InlineImage {
    type V = ImageView;

    open spec fn view(&self) -> ImageView {
        ImageView {
            cid: self.cid@,
            filename: self.filename@,
            content_type: self.content_type@,
            bytes: self.bytes@,
        }
    }
}

/// An appended file: its type, name and bytes.
pub type RegularFile = (&'static str, String, Vec<u8>);

/// The value of an appended file.
pub open spec fn file_view(f: RegularFile) -> (Seq<char>, Seq<char>, Seq<u8>) {
    (f.0@, f.1@, f.2@)
}

/// The files of a draft, by where they stand in the message.
pub struct PreparedAttachments {
    pub regular: Vec<RegularFile>,
    pub inline: Vec<InlineImage>,
}

/// The values of a draft's files.
pub struct PreparedView {
    pub regular: Seq<(Seq<char>, Seq<char>, Seq<u8>)>,
    pub inline: Seq<ImageView>,
}

impl View for PreparedAttachments {
    type V = PreparedView;

    open spec fn view(&self) -> PreparedView {
        PreparedView {
            regular: self.regular@.map_values(|f: RegularFile| file_view(f)),
            inline: self.inline@.map_values(|i: InlineImage| i@),
        }
    }
}

/// The ids of embedded files.
pub open spec fn cids(inline: Seq<ImageView>) -> Seq<Seq<char>> {
    inline.map_values(|i: ImageView| i.cid)
}

/// The largest file that a draft takes, in bytes.
pub const MAX_ATTACHMENT_SIZE: usize = 52_428_800;

/// The most bytes that all files of a draft may have together.
pub const MAX_TOTAL_ATTACHMENTS_SIZE: usize = 104_857_600;

/// Files that are being collected for a draft.
pub struct AttachmentBatch {
    pub prepared: PreparedAttachments,
    pub total: usize,
}

/// How a file is placed: its type and name, and its id where it is embedded.
pub struct Placed {
    pub content_type: Seq<char>,
    pub filename: Seq<char>,
    pub cid: Option<Seq<char>>,
}

/// The file name of a path, or `attachment` where it has none, without what
/// could end a header line.
pub open spec fn placed_name(name: Option<Seq<char>>) -> Seq<char> {
    header_value(
        match name {
            Some(n) => n,
            None => "attachment"@,
        },
    )
}

/// Whether and how a file of a given size is placed beside those that a batch
/// already holds.
pub open spec fn placement(
    spec: AttachmentSpec,
    name: Option<Seq<char>>,
    ext: Option<Seq<char>>,
    size: nat,
    total: nat,
    taken: Seq<Seq<char>>,
) -> Result<Placed, Seq<char>> {
    let path = spec.path_text();
    let filename = placed_name(name);
    let content_type = type_of_extension(
        lowercase(
            match ext {
                Some(e) => e,
                None => Seq::empty(),
            },
        ),
    );
    let cid = match spec.given_cid() {
        Some(c) => c,
        None => derived_cid(filename),
    };
    if size > MAX_ATTACHMENT_SIZE {
        Err(
            "Attachment \""@ + path + "\" is "@ + decimal(size)
                + " bytes — exceeds the 52428800-byte per-file cap"@,
        )
    } else if total + size > MAX_TOTAL_ATTACHMENTS_SIZE {
        Err("Total attachment size exceeds the 104857600-byte aggregate cap"@)
    } else if !spec.embedded() {
        Ok(Placed { content_type, filename, cid: None })
    } else if !embeddable(content_type) {
        Err(
            "Attachment \""@ + path + "\" is marked inline but its type is "@ + content_type
                + ". Only raster images can be embedded in the body (a marker renders an <img> tag); SVG is excluded because it can carry script. Drop `inline` to send it as a regular attachment."@,
        )
    } else if spec.given_cid() is Some && !valid_cid(cid) {
        Err(
            "Invalid cid \""@ + cid + "\" for attachment \""@ + path
                + "\": use letters, digits, '.', '_' or '-' only (the id also appears in the body marker)"@,
        )
    } else if taken.contains(cid) {
        Err(
            "Duplicate cid \""@ + cid + "\" (attachment \""@ + path
                + "\"): each inline image needs its own id, otherwise a body marker cannot say which one it means"@,
        )
    } else {
        Ok(Placed { content_type, filename, cid: Some(cid) })
    }
}

/// A file is placed exactly where it and all files together keep to their sizes
/// and, if it is to be embedded, it is an image other than SVG and has an id that
/// is well formed and that no other file has. It keeps its name and has the type
/// of its extension; embedded, it has the id that was asked for, or else one that
/// comes from its name, and otherwise none.
pub proof fn files_are_placed_as_asked(
    spec: AttachmentSpec,
    name: Seq<char>,
    ext: Seq<char>,
    size: nat,
    total: nat,
    taken: Seq<Seq<char>>,
)
    requires
        one_line(name),
    ensures
        ({
            let kind = type_of_extension(lowercase(ext));
            let embeds = spec matches AttachmentSpec::Detailed { inline, cid, .. } && (inline
                == Some(true) || (inline is None && cid is Some));
            let asked = match spec {
                AttachmentSpec::Detailed { cid: Some(c), .. } => Some(c@),
                _ => None,
            };
            match placement(spec, Some(name), Some(ext), size, total, taken) {
                Ok(p) => {
                    &&& size <= 52_428_800 && total + size <= 104_857_600
                    &&& p.filename == name
                    &&& p.content_type == kind
                    &&& p.cid is Some <==> embeds
                    &&& p.cid matches Some(id) ==> {
                        &&& id == (match asked {
                            Some(c) => c,
                            None => derived_cid(name),
                        })
                        &&& asked is Some ==> valid_cid(id)
                        &&& !taken.contains(id)
                        &&& begins_with(kind, "image/"@)
                        &&& kind != "image/svg+xml"@
                    }
                },
                Err(_) => {
                    ||| size > 52_428_800
                    ||| total + size > 104_857_600
                    ||| embeds && (!begins_with(kind, "image/"@) || kind == "image/svg+xml"@)
                    ||| embeds && (asked matches Some(c) && (!valid_cid(c) || taken.contains(c)))
                    ||| embeds && asked is None && taken.contains(derived_cid(name))
                },
            }
        }),
{
    clean_header_values_are_kept(name);
}

impl AttachmentBatch {
    /// The total keeps to its cap, every embedded file is a raster image with a
    /// safe id, and no two have one id.
    pub open spec fn wf(self) -> bool {
        let inline = self.prepared@.inline;
        &&& self.total <= MAX_TOTAL_ATTACHMENTS_SIZE
        &&& forall|i: int|
            0 <= i < inline.len() ==> embeddable((#[trigger] inline[i]).content_type)
                && inline[i].cid.len() > 0 && all_cid_chars(inline[i].cid)
        &&& cids(inline).no_duplicates()
    }

    /// An empty batch.
    pub fn new() -> (b: AttachmentBatch)
        ensures
            b.wf(),
            b.total == 0,
            b.prepared@.regular.len() == 0,
            b.prepared@.inline.len() == 0,
    {
        let b = AttachmentBatch {
            prepared: PreparedAttachments { regular: Vec::new(), inline: Vec::new() },
            total: 0,
        };
        proof {
            assert(b.prepared@.inline =~= Seq::empty());
        }
        b
    }

    fn has_cid(&self, cid: &str) -> (yes: bool)
        ensures
            yes == cids(self.prepared@.inline).contains(cid@),
    {
        let ghost all = cids(self.prepared@.inline);
        let mut i: usize = 0;
        while i < self.prepared.inline.len()
            invariant
                i <= self.prepared.inline@.len(),
                all == cids(self.prepared@.inline),
                forall|j: int| 0 <= j < i ==> #[trigger] all[j] != cid@,
            decreases self.prepared.inline@.len() - i,
        {
            proof {
                assert(all[i as int] == self.prepared.inline@[i as int].cid@);
            }
            if same_text(self.prepared.inline[i].cid.as_str(), cid) {
                assert(all.contains(cid@));
                return true;
            }
            i += 1;
        }
        proof {
            assert(all.len() == self.prepared.inline@.len());
        }
        false
    }

    /// Places a file whose name and extension are given.
    pub fn place(
        &mut self,
        spec: &AttachmentSpec,
        name: Option<String>,
        ext: Option<String>,
        bytes: Vec<u8>,
    ) -> (r: Result<(), String>)
        requires
            old(self).wf(),
        ensures
            final(self).wf(),
            match placement(
                *spec,
                opt_text(name),
                opt_text(ext),
                bytes@.len(),
                old(self).total as nat,
                cids(old(self).prepared@.inline),
            ) {
                Err(text) => r is Err && r->Err_0@ == text && *final(self) == *old(self),
                Ok(p) => {
                    &&& r is Ok
                    &&& final(self).total == old(self).total + bytes@.len()
                    &&& final(self).prepared@ == match p.cid {
                        None => PreparedView {
                            regular: old(self).prepared@.regular.push(
                                (p.content_type, p.filename, bytes@),
                            ),
                            inline: old(self).prepared@.inline,
                        },
                        Some(cid) => PreparedView {
                            regular: old(self).prepared@.regular,
                            inline: old(self).prepared@.inline.push(
                                ImageView {
                                    cid,
                                    filename: p.filename,
                                    content_type: p.content_type,
                                    bytes: bytes@,
                                },
                            ),
                        },
                    }
                },
            },
    {
        let path = spec.path();
        let size: usize = bytes.len();
        if size > MAX_ATTACHMENT_SIZE {
            let mut text = copy_of("Attachment \"");
            text.append(path);
            text.append("\" is ");
            let digits = decimal_string(size as u64);
            text.append(digits.as_str());
            text.append(" bytes — exceeds the 52428800-byte per-file cap");
            return Err(text);
        }
        if self.total + size > MAX_TOTAL_ATTACHMENTS_SIZE {
            return Err(
                copy_of("Total attachment size exceeds the 104857600-byte aggregate cap"),
            );
        }
        let filename = match &name {
            Some(n) => sanitize_header_value(n.as_str()),
            None => sanitize_header_value("attachment"),
        };
        let content_type = match &ext {
            Some(e) => mime_type_from_extension(e.as_str()),
            None => mime_type_from_extension(""),
        };
        proof {
            reveal_strlit("");
            assert(""@ =~= Seq::<char>::empty());
        }
        let ghost before = self.prepared@;
        if !spec.is_inline() {
            let file: RegularFile = (content_type, filename, bytes);
            proof {
                assert(self.prepared.regular@.push(file).map_values(|f: RegularFile| file_view(f))
                    =~= before.regular.push(file_view(file)));
            }
            self.prepared.regular.push(file);
            self.total = self.total + size;
            return Ok(());
        }
        if !text_begins_with(content_type, "image/") || same_text(content_type, "image/svg+xml") {
            let mut text = copy_of("Attachment \"");
            text.append(path);
            text.append("\" is marked inline but its type is ");
            text.append(content_type);
            text.append(
                ". Only raster images can be embedded in the body (a marker renders an <img> tag); SVG is excluded because it can carry script. Drop `inline` to send it as a regular attachment.",
            );
            return Err(text);
        }
        let cid = match spec.explicit_cid() {
            Some(raw) => {
                if !is_valid_cid(raw) {
                    let mut text = copy_of("Invalid cid \"");
                    text.append(raw);
                    text.append("\" for attachment \"");
                    text.append(path);
                    text.append(
                        "\": use letters, digits, '.', '_' or '-' only (the id also appears in the body marker)",
                    );
                    return Err(text);
                }
                copy_of(raw)
            },
            None => {
                proof {
                    derived_cids_are_safe(filename@);
                }
                derive_cid(filename.as_str())
            },
        };
        if self.has_cid(cid.as_str()) {
            let mut text = copy_of("Duplicate cid \"");
            text.append(cid.as_str());
            text.append("\" (attachment \"");
            text.append(path);
            text.append(
                "\"): each inline image needs its own id, otherwise a body marker cannot say which one it means",
            );
            return Err(text);
        }
        let image = InlineImage { cid, filename, content_type, bytes };
        proof {
            let now = self.prepared.inline@.push(image).map_values(|i: InlineImage| i@);
            assert(now =~= before.inline.push(image@));
            assert(cids(now) =~= cids(before.inline).push(image@.cid));
            assert(all_cid_chars(image@.cid));
        }
        self.prepared.inline.push(image);
        self.total = self.total + size;
        Ok(())
    }

    /// Places a file that was read, under the name and the type that its path
    /// gives.
    pub fn add_file(&mut self, spec: &AttachmentSpec, bytes: Vec<u8>) -> (r: Result<(), String>)
        requires
            old(self).wf(),
        ensures
            final(self).wf(),
            match placement(
                *spec,
                path_file_name(spec.path_text()),
                path_extension(spec.path_text()),
                bytes@.len(),
                old(self).total as nat,
                cids(old(self).prepared@.inline),
            ) {
                Err(text) => r is Err && r->Err_0@ == text && *final(self) == *old(self),
                Ok(p) => {
                    &&& r is Ok
                    &&& final(self).total == old(self).total + bytes@.len()
                    &&& final(self).prepared@ == match p.cid {
                        None => PreparedView {
                            regular: old(self).prepared@.regular.push(
                                (p.content_type, p.filename, bytes@),
                            ),
                            inline: old(self).prepared@.inline,
                        },
                        Some(cid) => PreparedView {
                            regular: old(self).prepared@.regular,
                            inline: old(self).prepared@.inline.push(
                                ImageView {
                                    cid,
                                    filename: p.filename,
                                    content_type: p.content_type,
                                    bytes: bytes@,
                                },
                            ),
                        },
                    }
                },
            },
    {
        let name = file_name_of(spec.path());
        let ext = extension_of(spec.path());
        self.place(spec, name, ext, bytes)
    }
}

/// The last component of a path, where it is a name.
pub uninterp spec fn path_file_name(path: Seq<char>) -> Option<Seq<char>>;

/// `std::path::Path::file_name` of a path: the last component, where it is a
/// name; which depends on the path alone.
#[verifier::external_body]
fn file_name_of(path: &str) -> (name: Option<String>)
    ensures
        opt_text(name) == path_file_name(path@),
{
    std::path::Path::new(path).file_name().and_then(|n| n.to_str()).map(str::to_string)
}

/// The extension of a path's last component.
pub uninterp spec fn path_extension(path: Seq<char>) -> Option<Seq<char>>;

/// `std::path::Path::extension` of a path: what stands behind the last dot of
/// its last component; which depends on the path alone.
#[verifier::external_body]
fn extension_of(path: &str) -> (ext: Option<String>)
    ensures
        opt_text(ext) == path_extension(path@),
{
    std::path::Path::new(path).extension().and_then(|e| e.to_str()).map(str::to_string)
}

// ---------------------------------------------------------------------------
// Markers and files
// ---------------------------------------------------------------------------

/// The images that a body's markers can refer to: each under its own id.
pub open spec fn image_refs(inline: Seq<ImageView>) -> Seq<RefView> {
    inline.map_values(
        |i: ImageView| RefView { cid: i.cid, content_id: i.cid, filename: i.filename },
    )
}

/// The embedded files for the body renderer.
pub fn inline_refs<'a>(inline: &'a Vec<InlineImage>) -> (refs: Vec<InlineRef<'a>>)
    ensures
        ref_views(refs@) == image_refs(inline@.map_values(|i: InlineImage| i@)),
{
    let mut refs: Vec<InlineRef> = Vec::new();
    let mut i: usize = 0;
    while i < inline.len()
        invariant
            i <= inline@.len(),
            refs@.len() == i,
            forall|j: int|
                0 <= j < i ==> (#[trigger] refs@[j])@ == (RefView {
                    cid: inline@[j].cid@,
                    content_id: inline@[j].cid@,
                    filename: inline@[j].filename@,
                }),
        decreases inline@.len() - i,
    {
        let image = &inline[i];
        refs.push(
            InlineRef {
                cid: image.cid.as_str(),
                content_id: image.cid.as_str(),
                filename: image.filename.as_str(),
            },
        );
        i += 1;
    }
    proof {
        assert(ref_views(refs@) =~= image_refs(inline@.map_values(|i: InlineImage| i@)));
    }
    refs
}

/// The first of the ids that is not among those available.
pub open spec fn first_missing(
    ids: Seq<Seq<char>>,
    available: Seq<Seq<char>>,
    k: int,
) -> Option<Seq<char>>
    decreases ids.len() - k,
{
    if k < 0 || k >= ids.len() {
        None
    } else if available.contains(ids[k]) {
        first_missing(ids, available, k + 1)
    } else {
        Some(ids[k])
    }
}

/// The available ids that are not used, in order.
pub open spec fn unused_ids(ids: Seq<Seq<char>>, available: Seq<Seq<char>>) -> Seq<Seq<char>> {
    available.filter(|c: Seq<char>| !ids.contains(c))
}

/// What is said of a malformed marker: what stands in its line, and how to
/// write it.
pub open spec fn stray_notice(fragment: Seq<char>) -> Seq<char> {
    "Malformed image marker in the body: \""@ + fragment
        + "\". It stays visible as text — write `![alt](cid:<id>)` with the alt text on one line and letters, digits, '.', '_' or '-' in the id."@
}

/// What is said of files that no marker refers to.
pub open spec fn unused_notice(ids: Seq<Seq<char>>) -> Seq<char> {
    "Inline attachment(s) not referenced from the body: "@ + joined(ids, ", "@)
        + ". They are still sent, but the recipient's client decides where to place them — add `![](cid:<id>)` where each belongs."@
}

/// The notice of a draft: of a malformed marker, and of files that no marker
/// refers to.
pub open spec fn marker_notice(stray: Option<Seq<char>>, unused: Seq<Seq<char>>) -> Option<
    Seq<char>,
> {
    match stray {
        None => if unused.len() == 0 {
            None
        } else {
            Some(unused_notice(unused))
        },
        Some(f) => if unused.len() == 0 {
            Some(stray_notice(f))
        } else {
            Some(stray_notice(f) + " "@ + unused_notice(unused))
        },
    }
}

/// What a body whose markers refer to `ids` is answered beside embedded files
/// with the `available` ids: an error for a marker without a file, a notice for
/// a malformed marker and for files without a marker.
pub open spec fn marker_verdict(
    ids: Seq<Seq<char>>,
    available: Seq<Seq<char>>,
    stray: Option<Seq<char>>,
) -> Result<Option<Seq<char>>, Seq<char>> {
    match first_missing(ids, available, 0) {
        Some(cid) => if available.len() == 0 {
            Err(
                "Body references `(cid:"@ + cid
                    + ")` but no attachment is marked inline. Pass the image as {\"path\": \"…\", \"inline\": true, \"cid\": \""@
                    + cid + "\"}."@,
            )
        } else {
            Err(
                "Body references `(cid:"@ + cid
                    + ")` but no attachment carries that id. Available: "@ + joined(
                    available,
                    ", "@,
                ),
            )
        },
        None => Ok(marker_notice(stray, unused_ids(ids, available))),
    }
}

/// The verdict on a body beside embedded files with the `available` ids.
pub open spec fn body_verdict(body: Seq<char>, available: Seq<Seq<char>>) -> Result<
    Option<Seq<char>>,
    Seq<char>,
> {
    marker_verdict(
        first_appearances(referenced_ids(markers(body))),
        available,
        stray_from(body, 0),
    )
}

fn write_notice(stray: &Option<String>, unused: &Vec<String>) -> (out: Option<String>)
    ensures
        opt_text(out) == marker_notice(opt_text(*stray), texts(unused@)),
{
    let mut text = String::new();
    if let Some(f) = stray {
        text.append("Malformed image marker in the body: \"");
        text.append(f.as_str());
        text.append(
            "\". It stays visible as text — write `![alt](cid:<id>)` with the alt text on one line and letters, digits, '.', '_' or '-' in the id.",
        );
        proof {
            assert(text@ =~= stray_notice(f@));
        }
    }
    if unused.len() == 0 {
        return if stray.is_some() {
            Some(text)
        } else {
            None
        };
    }
    if stray.is_some() {
        text.append(" ");
    }
    let ghost head = text@;
    text.append("Inline attachment(s) not referenced from the body: ");
    let list = join(unused, ", ");
    text.append(list.as_str());
    text.append(
        ". They are still sent, but the recipient's client decides where to place them — add `![](cid:<id>)` where each belongs.",
    );
    proof {
        assert(text@ =~= head + unused_notice(texts(unused@)));
        if stray is None {
            assert(head =~= Seq::<char>::empty());
            assert(text@ =~= unused_notice(texts(unused@)));
        }
    }
    Some(text)
}

fn list_has(l: &Vec<String>, s: &str) -> (yes: bool)
    ensures
        yes == texts(l@).contains(s@),
{
    let ghost all = texts(l@);
    let mut i: usize = 0;
    while i < l.len()
        invariant
            i <= l@.len(),
            all == texts(l@),
            forall|j: int| 0 <= j < i ==> #[trigger] all[j] != s@,
        decreases l@.len() - i,
    {
        proof {
            assert(all[i as int] == l@[i as int]@);
        }
        if same_text(l[i].as_str(), s) {
            assert(all.contains(s@));
            return true;
        }
        i += 1;
    }
    false
}

fn missing_marker_text(cid: &str, available: &Vec<String>) -> (text: String)
    ensures
        text@ == (if available@.len() == 0 {
            "Body references `(cid:"@ + cid@
                + ")` but no attachment is marked inline. Pass the image as {\"path\": \"…\", \"inline\": true, \"cid\": \""@
                + cid@ + "\"}."@
        } else {
            "Body references `(cid:"@ + cid@
                + ")` but no attachment carries that id. Available: "@ + joined(
                texts(available@),
                ", "@,
            )
        }),
{
    let mut text = copy_of("Body references `(cid:");
    text.append(cid);
    if available.len() == 0 {
        text.append(
            ")` but no attachment is marked inline. Pass the image as {\"path\": \"…\", \"inline\": true, \"cid\": \"",
        );
        text.append(cid);
        text.append("\"}.");
    } else {
        text.append(")` but no attachment carries that id. Available: ");
        let list = join(available, ", ");
        text.append(list.as_str());
    }
    text
}

/// Holds a body's markers against the embedded files.
pub fn check_cid_markers(body: &str, inline: &Vec<InlineImage>) -> (r: Result<
    Option<String>,
    String,
>)
    ensures
        match body_verdict(body@, cids(inline@.map_values(|i: InlineImage| i@))) {
            Err(text) => r is Err && r->Err_0@ == text,
            Ok(notice) => r is Ok && opt_text(r->Ok_0) == notice,
        },
{
    let ghost images = inline@.map_values(|i: InlineImage| i@);
    let mut available: Vec<String> = Vec::new();
    let mut i: usize = 0;
    while i < inline.len()
        invariant
            i <= inline@.len(),
            images == inline@.map_values(|i: InlineImage| i@),
            texts(available@) == cids(images).take(i as int),
        decreases inline@.len() - i,
    {
        let cid = copy_of(inline[i].cid.as_str());
        let ghost before = texts(available@);
        proof {
            assert(cids(images)[i as int] == cid@);
            assert(texts(available@.push(cid)) =~= before.push(cid@));
            assert(cids(images).take(i as int + 1) =~= cids(images).take(i as int).push(cid@));
        }
        available.push(cid);
        i += 1;
    }
    let ghost have = cids(images);
    proof {
        assert(have.take(have.len() as int) =~= have);
    }
    let inspection = inspect_markers(body);
    let ids = inspection.unique_ids;
    let ghost used = texts(ids@);
    let mut k: usize = 0;
    while k < ids.len()
        invariant
            k <= ids@.len(),
            used == texts(ids@),
            used == first_appearances(referenced_ids(markers(body@))),
            texts(available@) == have,
            images == inline@.map_values(|i: InlineImage| i@),
            have == cids(images),
            first_missing(used, have, 0) == first_missing(used, have, k as int),
        decreases ids@.len() - k,
    {
        proof {
            assert(used[k as int] == ids@[k as int]@);
        }
        if !list_has(&available, ids[k].as_str()) {
            return Err(missing_marker_text(ids[k].as_str(), &available));
        }
        k += 1;
    }
    let mut unused: Vec<String> = Vec::new();
    let mut i: usize = 0;
    proof {
        assert(have.take(0) =~= Seq::<Seq<char>>::empty());
        reveal_with_fuel(Seq::filter, 1);
        assert(texts(unused@) =~= unused_ids(used, have.take(0)));
    }
    while i < available.len()
        invariant
            i <= available@.len(),
            used == texts(ids@),
            texts(available@) == have,
            texts(unused@) == unused_ids(used, have.take(i as int)),
        decreases available@.len() - i,
    {
        let ghost before = texts(unused@);
        proof {
            assert(have[i as int] == available@[i as int]@);
            assert(have.take(i as int + 1).drop_last() =~= have.take(i as int));
            reveal_with_fuel(Seq::filter, 1);
        }
        if !list_has(&ids, available[i].as_str()) {
            let cid = copy_of(available[i].as_str());
            proof {
                assert(texts(unused@.push(cid)) =~= before.push(cid@));
            }
            unused.push(cid);
        }
        i += 1;
    }
    proof {
        assert(have.take(have.len() as int) =~= have);
        assert(texts(unused@).len() == unused@.len());
    }
    Ok(write_notice(&inspection.stray_fragment, &unused))
}

/// Where the check passes, every marker of the body refers to an embedded file,
/// so that no image in the draft resolves to nothing.
pub proof fn accepted_markers_resolve(body: Seq<char>, available: Seq<Seq<char>>)
    requires
        body_verdict(body, available) is Ok,
    ensures
        forall|k: int|
            0 <= k < markers(body).len() ==> available.contains((#[trigger] markers(body)[k]).cid),
{
    let all = referenced_ids(markers(body));
    let ids = first_appearances(all);
    lemma_none_missing(ids, available, 0);
    assert forall|k: int| 0 <= k < markers(body).len() implies available.contains(
        (#[trigger] markers(body)[k]).cid,
    ) by {
        assert(all[k] == markers(body)[k].cid);
        lemma_all_appear(all, k);
        let j = choose|j: int| 0 <= j < ids.len() && ids[j] == all[k];
        assert(available.contains(ids[j]));
    }
}

/// A malformed marker is never passed over in silence: the draft is refused, or
/// the notice quotes the line of the first one.
pub proof fn malformed_markers_are_loud(body: Seq<char>, available: Seq<Seq<char>>, pos: int)
    requires
        0 <= pos,
        stray_at(body, pos),
    ensures
        exists|first: int|
            #![trigger stray_at(body, first)]
            {
                &&& 0 <= first <= pos
                &&& stray_at(body, first)
                &&& forall|j: int| 0 <= j < first ==> !stray_at(body, j)
                &&& match body_verdict(body, available) {
                    Err(_) => true,
                    Ok(None) => false,
                    Ok(Some(text)) => contains_text(text, fragment_at(body, first)),
                }
            },
{
    let first = lemma_stray_is_found(body, 0, pos);
    let f = fragment_at(body, first);
    if let Ok(notice) = body_verdict(body, available) {
        let text = notice->0;
        let at = "Malformed image marker in the body: \""@.len() as int;
        assert(text.subrange(at, at + f.len()) =~= f);
        assert(occurs_at(text, f, at));
    }
    assert(stray_at(body, first));
}

proof fn lemma_none_missing(ids: Seq<Seq<char>>, available: Seq<Seq<char>>, from: int)
    requires
        0 <= from,
        first_missing(ids, available, from) is None,
    ensures
        forall|k: int| from <= k < ids.len() ==> available.contains(#[trigger] ids[k]),
    decreases ids.len() - from,
{
    if from < ids.len() {
        lemma_none_missing(ids, available, from + 1);
    }
}

} // verus!
