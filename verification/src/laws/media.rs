//! Media types: which one a path is declared as.

use crate::headers;
use crate::laws::texts;
use crate::text;
use vstd::prelude::*;
use vstd::string::*;

verus! {

/// Whether the name at the end of a path has an extension, in whatever case it is written: a dot
/// that does not begin the name, no other dot and no slash behind it, and then the extension.
pub open spec fn has_extension(rel: Seq<char>, ext: Seq<char>) -> bool {
    exists|dot: int|
        {
            &&& 0 < dot < rel.len()
            &&& #[trigger] rel[dot] == '.'
            &&& rel[dot - 1] != '/'
            &&& forall|i: int| dot < i < rel.len() ==> rel[i] != '.' && rel[i] != '/'
            &&& ext == text::ascii_lower_all(rel.skip(dot + 1))
        }
}

/// The extension that decides the media type of a path.
proof fn lemma_media_type(rel: Seq<char>)
    ensures
        match headers::extension(headers::final_segment(rel)) {
            Some(ext) => {
                &&& has_extension(rel, text::ascii_lower_all(ext))
                &&& forall|other: Seq<char>| #[trigger]
                    has_extension(rel, other) ==> other == text::ascii_lower_all(ext)
            },
            None => forall|other: Seq<char>| !#[trigger] has_extension(rel, other),
        },
{
    let slash = text::find_last(rel, '/');
    let name = headers::final_segment(rel);
    let dot = text::find_last(name, '.');
    texts::law_find_last_is_last(rel, '/');
    texts::law_find_last_is_last(name, '.');
    assert forall|i: int| 0 <= i < name.len() implies name[i] == rel[slash + 1 + i] by {}
    if dot > 0 {
        let at = slash + 1 + dot;
        assert(rel[at] == '.');
        assert(name[dot - 1] == rel[at - 1]);
        assert(name.skip(dot + 1) =~= rel.skip(at + 1));
        assert forall|i: int| at < i < rel.len() implies rel[i] != '.' && rel[i] != '/' by {
            assert(name[i - slash - 1] == rel[i]);
        }
        assert(has_extension(rel, text::ascii_lower_all(name.skip(dot + 1))));
    }
    assert forall|other: Seq<char>| #[trigger] has_extension(rel, other) implies dot > 0 && other
        == text::ascii_lower_all(name.skip(dot + 1)) by {
        let at = choose|at: int|
            {
                &&& 0 < at < rel.len()
                &&& #[trigger] rel[at] == '.'
                &&& rel[at - 1] != '/'
                &&& forall|i: int| at < i < rel.len() ==> rel[i] != '.' && rel[i] != '/'
                &&& other == text::ascii_lower_all(rel.skip(at + 1))
            };
        if slash >= 0 {
            assert(rel[slash] == '/');
        }
        assert(slash < at - 1);
        assert(name[at - slash - 1] == '.');
        assert(dot >= at - slash - 1);
        assert(rel[slash + 1 + dot] == name[dot]);
        assert(dot == at - slash - 1);
        assert(name.skip(dot + 1) =~= rel.skip(at + 1));
    }
}

/// The letters of every extension with a media type of its own.
proof fn lemma_extension_letters()
    ensures
        "html"@.len() == 4 && "html"@[0] == 'h' && "html"@[1] == 't' && "html"@[2] == 'm'
            && "html"@[3] == 'l',
        "htm"@.len() == 3 && "htm"@[0] == 'h' && "htm"@[1] == 't' && "htm"@[2] == 'm',
        "css"@.len() == 3 && "css"@[0] == 'c' && "css"@[1] == 's' && "css"@[2] == 's',
        "js"@.len() == 2 && "js"@[0] == 'j' && "js"@[1] == 's',
        "mjs"@.len() == 3 && "mjs"@[0] == 'm' && "mjs"@[1] == 'j' && "mjs"@[2] == 's',
        "txt"@.len() == 3 && "txt"@[0] == 't' && "txt"@[1] == 'x' && "txt"@[2] == 't',
        "md"@.len() == 2 && "md"@[0] == 'm' && "md"@[1] == 'd',
        "csv"@.len() == 3 && "csv"@[0] == 'c' && "csv"@[1] == 's' && "csv"@[2] == 'v',
        "xml"@.len() == 3 && "xml"@[0] == 'x' && "xml"@[1] == 'm' && "xml"@[2] == 'l',
        "json"@.len() == 4 && "json"@[0] == 'j' && "json"@[1] == 's' && "json"@[2] == 'o'
            && "json"@[3] == 'n',
        "map"@.len() == 3 && "map"@[0] == 'm' && "map"@[1] == 'a' && "map"@[2] == 'p',
        "webmanifest"@.len() == 11 && "webmanifest"@[0] == 'w' && "webmanifest"@[1] == 'e'
            && "webmanifest"@[2] == 'b' && "webmanifest"@[3] == 'm' && "webmanifest"@[4] == 'a'
            && "webmanifest"@[5] == 'n' && "webmanifest"@[6] == 'i' && "webmanifest"@[7] == 'f'
            && "webmanifest"@[8] == 'e' && "webmanifest"@[9] == 's' && "webmanifest"@[10] == 't',
        "ics"@.len() == 3 && "ics"@[0] == 'i' && "ics"@[1] == 'c' && "ics"@[2] == 's',
        "vtt"@.len() == 3 && "vtt"@[0] == 'v' && "vtt"@[1] == 't' && "vtt"@[2] == 't',
        "png"@.len() == 3 && "png"@[0] == 'p' && "png"@[1] == 'n' && "png"@[2] == 'g',
        "jpg"@.len() == 3 && "jpg"@[0] == 'j' && "jpg"@[1] == 'p' && "jpg"@[2] == 'g',
        "jpeg"@.len() == 4 && "jpeg"@[0] == 'j' && "jpeg"@[1] == 'p' && "jpeg"@[2] == 'e'
            && "jpeg"@[3] == 'g',
        "gif"@.len() == 3 && "gif"@[0] == 'g' && "gif"@[1] == 'i' && "gif"@[2] == 'f',
        "webp"@.len() == 4 && "webp"@[0] == 'w' && "webp"@[1] == 'e' && "webp"@[2] == 'b'
            && "webp"@[3] == 'p',
        "avif"@.len() == 4 && "avif"@[0] == 'a' && "avif"@[1] == 'v' && "avif"@[2] == 'i'
            && "avif"@[3] == 'f',
        "svg"@.len() == 3 && "svg"@[0] == 's' && "svg"@[1] == 'v' && "svg"@[2] == 'g',
        "ico"@.len() == 3 && "ico"@[0] == 'i' && "ico"@[1] == 'c' && "ico"@[2] == 'o',
        "bmp"@.len() == 3 && "bmp"@[0] == 'b' && "bmp"@[1] == 'm' && "bmp"@[2] == 'p',
        "tif"@.len() == 3 && "tif"@[0] == 't' && "tif"@[1] == 'i' && "tif"@[2] == 'f',
        "tiff"@.len() == 4 && "tiff"@[0] == 't' && "tiff"@[1] == 'i' && "tiff"@[2] == 'f'
            && "tiff"@[3] == 'f',
        "apng"@.len() == 4 && "apng"@[0] == 'a' && "apng"@[1] == 'p' && "apng"@[2] == 'n'
            && "apng"@[3] == 'g',
        "woff"@.len() == 4 && "woff"@[0] == 'w' && "woff"@[1] == 'o' && "woff"@[2] == 'f'
            && "woff"@[3] == 'f',
        "woff2"@.len() == 5 && "woff2"@[0] == 'w' && "woff2"@[1] == 'o' && "woff2"@[2] == 'f'
            && "woff2"@[3] == 'f' && "woff2"@[4] == '2',
        "ttf"@.len() == 3 && "ttf"@[0] == 't' && "ttf"@[1] == 't' && "ttf"@[2] == 'f',
        "otf"@.len() == 3 && "otf"@[0] == 'o' && "otf"@[1] == 't' && "otf"@[2] == 'f',
        "eot"@.len() == 3 && "eot"@[0] == 'e' && "eot"@[1] == 'o' && "eot"@[2] == 't',
        "mp3"@.len() == 3 && "mp3"@[0] == 'm' && "mp3"@[1] == 'p' && "mp3"@[2] == '3',
        "ogg"@.len() == 3 && "ogg"@[0] == 'o' && "ogg"@[1] == 'g' && "ogg"@[2] == 'g',
        "oga"@.len() == 3 && "oga"@[0] == 'o' && "oga"@[1] == 'g' && "oga"@[2] == 'a',
        "wav"@.len() == 3 && "wav"@[0] == 'w' && "wav"@[1] == 'a' && "wav"@[2] == 'v',
        "flac"@.len() == 4 && "flac"@[0] == 'f' && "flac"@[1] == 'l' && "flac"@[2] == 'a'
            && "flac"@[3] == 'c',
        "m4a"@.len() == 3 && "m4a"@[0] == 'm' && "m4a"@[1] == '4' && "m4a"@[2] == 'a',
        "aac"@.len() == 3 && "aac"@[0] == 'a' && "aac"@[1] == 'a' && "aac"@[2] == 'c',
        "mp4"@.len() == 3 && "mp4"@[0] == 'm' && "mp4"@[1] == 'p' && "mp4"@[2] == '4',
        "m4v"@.len() == 3 && "m4v"@[0] == 'm' && "m4v"@[1] == '4' && "m4v"@[2] == 'v',
        "webm"@.len() == 4 && "webm"@[0] == 'w' && "webm"@[1] == 'e' && "webm"@[2] == 'b'
            && "webm"@[3] == 'm',
        "ogv"@.len() == 3 && "ogv"@[0] == 'o' && "ogv"@[1] == 'g' && "ogv"@[2] == 'v',
        "mov"@.len() == 3 && "mov"@[0] == 'm' && "mov"@[1] == 'o' && "mov"@[2] == 'v',
        "avi"@.len() == 3 && "avi"@[0] == 'a' && "avi"@[1] == 'v' && "avi"@[2] == 'i',
        "ts"@.len() == 2 && "ts"@[0] == 't' && "ts"@[1] == 's',
        "gz"@.len() == 2 && "gz"@[0] == 'g' && "gz"@[1] == 'z',
        "br"@.len() == 2 && "br"@[0] == 'b' && "br"@[1] == 'r',
        "zst"@.len() == 3 && "zst"@[0] == 'z' && "zst"@[1] == 's' && "zst"@[2] == 't',
        "zip"@.len() == 3 && "zip"@[0] == 'z' && "zip"@[1] == 'i' && "zip"@[2] == 'p',
        "tar"@.len() == 3 && "tar"@[0] == 't' && "tar"@[1] == 'a' && "tar"@[2] == 'r',
        "7z"@.len() == 2 && "7z"@[0] == '7' && "7z"@[1] == 'z',
        "pdf"@.len() == 3 && "pdf"@[0] == 'p' && "pdf"@[1] == 'd' && "pdf"@[2] == 'f',
        "wasm"@.len() == 4 && "wasm"@[0] == 'w' && "wasm"@[1] == 'a' && "wasm"@[2] == 's'
            && "wasm"@[3] == 'm',
        "rtf"@.len() == 3 && "rtf"@[0] == 'r' && "rtf"@[1] == 't' && "rtf"@[2] == 'f',
        "eps"@.len() == 3 && "eps"@[0] == 'e' && "eps"@[1] == 'p' && "eps"@[2] == 's',
        "ps"@.len() == 2 && "ps"@[0] == 'p' && "ps"@[1] == 's',
        "atom"@.len() == 4 && "atom"@[0] == 'a' && "atom"@[1] == 't' && "atom"@[2] == 'o'
            && "atom"@[3] == 'm',
        "rss"@.len() == 3 && "rss"@[0] == 'r' && "rss"@[1] == 's' && "rss"@[2] == 's',
        "jsonld"@.len() == 6 && "jsonld"@[0] == 'j' && "jsonld"@[1] == 's' && "jsonld"@[2] == 'o'
            && "jsonld"@[3] == 'n' && "jsonld"@[4] == 'l' && "jsonld"@[5] == 'd',
        "otml"@.len() == 4 && "otml"@[0] == 'o' && "otml"@[1] == 't' && "otml"@[2] == 'm'
            && "otml"@[3] == 'l',
{
    reveal_strlit("html");
    reveal_strlit("htm");
    reveal_strlit("css");
    reveal_strlit("js");
    reveal_strlit("mjs");
    reveal_strlit("txt");
    reveal_strlit("md");
    reveal_strlit("csv");
    reveal_strlit("xml");
    reveal_strlit("json");
    reveal_strlit("map");
    reveal_strlit("webmanifest");
    reveal_strlit("ics");
    reveal_strlit("vtt");
    reveal_strlit("png");
    reveal_strlit("jpg");
    reveal_strlit("jpeg");
    reveal_strlit("gif");
    reveal_strlit("webp");
    reveal_strlit("avif");
    reveal_strlit("svg");
    reveal_strlit("ico");
    reveal_strlit("bmp");
    reveal_strlit("tif");
    reveal_strlit("tiff");
    reveal_strlit("apng");
    reveal_strlit("woff");
    reveal_strlit("woff2");
    reveal_strlit("ttf");
    reveal_strlit("otf");
    reveal_strlit("eot");
    reveal_strlit("mp3");
    reveal_strlit("ogg");
    reveal_strlit("oga");
    reveal_strlit("wav");
    reveal_strlit("flac");
    reveal_strlit("m4a");
    reveal_strlit("aac");
    reveal_strlit("mp4");
    reveal_strlit("m4v");
    reveal_strlit("webm");
    reveal_strlit("ogv");
    reveal_strlit("mov");
    reveal_strlit("avi");
    reveal_strlit("ts");
    reveal_strlit("gz");
    reveal_strlit("br");
    reveal_strlit("zst");
    reveal_strlit("zip");
    reveal_strlit("tar");
    reveal_strlit("7z");
    reveal_strlit("pdf");
    reveal_strlit("wasm");
    reveal_strlit("rtf");
    reveal_strlit("eps");
    reveal_strlit("ps");
    reveal_strlit("atom");
    reveal_strlit("rss");
    reveal_strlit("jsonld");
    reveal_strlit("otml");
}

/// Pages, style sheets, scripts and other texts are declared as UTF-8, each under the name of its
/// format.
pub proof fn law_types_of_texts(rel: Seq<char>)
    ensures
        has_extension(rel, "html"@) ==> headers::content_type(rel)
            == "text/"@ + "html"@ + "; charset=utf-8"@,
        has_extension(rel, "htm"@) ==> headers::content_type(rel)
            == "text/"@ + "html"@ + "; charset=utf-8"@,
        has_extension(rel, "css"@) ==> headers::content_type(rel)
            == "text/"@ + "css"@ + "; charset=utf-8"@,
        has_extension(rel, "js"@) ==> headers::content_type(rel)
            == "text/"@ + "javascript"@ + "; charset=utf-8"@,
        has_extension(rel, "mjs"@) ==> headers::content_type(rel)
            == "text/"@ + "javascript"@ + "; charset=utf-8"@,
        has_extension(rel, "txt"@) ==> headers::content_type(rel)
            == "text/"@ + "plain"@ + "; charset=utf-8"@,
        has_extension(rel, "md"@) ==> headers::content_type(rel)
            == "text/"@ + "markdown"@ + "; charset=utf-8"@,
        has_extension(rel, "csv"@) ==> headers::content_type(rel)
            == "text/"@ + "csv"@ + "; charset=utf-8"@,
        has_extension(rel, "ics"@) ==> headers::content_type(rel)
            == "text/"@ + "calendar"@ + "; charset=utf-8"@,
        has_extension(rel, "vtt"@) ==> headers::content_type(rel)
            == "text/"@ + "vtt"@ + "; charset=utf-8"@,
{
    lemma_media_type(rel);
    lemma_extension_letters();
    reveal_strlit("html");
    reveal_strlit("css");
    reveal_strlit("csv");
    reveal_strlit("vtt");
    reveal_strlit("text/");
    reveal_strlit("text/html; charset=utf-8");
    reveal_strlit("text/css; charset=utf-8");
    reveal_strlit("javascript");
    reveal_strlit("text/javascript; charset=utf-8");
    reveal_strlit("plain");
    reveal_strlit("text/plain; charset=utf-8");
    reveal_strlit("markdown");
    reveal_strlit("text/markdown; charset=utf-8");
    reveal_strlit("text/csv; charset=utf-8");
    reveal_strlit("calendar");
    reveal_strlit("text/calendar; charset=utf-8");
    reveal_strlit("text/vtt; charset=utf-8");
    reveal_strlit("; charset=utf-8");
    assert("text/html; charset=utf-8"@ =~= "text/"@ + "html"@ + "; charset=utf-8"@);
    assert("text/css; charset=utf-8"@ =~= "text/"@ + "css"@ + "; charset=utf-8"@);
    assert("text/javascript; charset=utf-8"@ =~= "text/"@ + "javascript"@ + "; charset=utf-8"@);
    assert("text/plain; charset=utf-8"@ =~= "text/"@ + "plain"@ + "; charset=utf-8"@);
    assert("text/markdown; charset=utf-8"@ =~= "text/"@ + "markdown"@ + "; charset=utf-8"@);
    assert("text/csv; charset=utf-8"@ =~= "text/"@ + "csv"@ + "; charset=utf-8"@);
    assert("text/calendar; charset=utf-8"@ =~= "text/"@ + "calendar"@ + "; charset=utf-8"@);
    assert("text/vtt; charset=utf-8"@ =~= "text/"@ + "vtt"@ + "; charset=utf-8"@);
}

/// Pictures, each under the name of its format.
pub proof fn law_types_of_pictures(rel: Seq<char>)
    ensures
        has_extension(rel, "png"@) ==> headers::content_type(rel) == "image/"@ + "png"@,
        has_extension(rel, "jpg"@) ==> headers::content_type(rel) == "image/"@ + "jpeg"@,
        has_extension(rel, "jpeg"@) ==> headers::content_type(rel) == "image/"@ + "jpeg"@,
        has_extension(rel, "gif"@) ==> headers::content_type(rel) == "image/"@ + "gif"@,
        has_extension(rel, "webp"@) ==> headers::content_type(rel) == "image/"@ + "webp"@,
        has_extension(rel, "avif"@) ==> headers::content_type(rel) == "image/"@ + "avif"@,
        has_extension(rel, "svg"@) ==> headers::content_type(rel) == "image/"@ + "svg+xml"@,
        has_extension(rel, "ico"@) ==> headers::content_type(rel) == "image/"@ + "x-icon"@,
        has_extension(rel, "bmp"@) ==> headers::content_type(rel) == "image/"@ + "bmp"@,
        has_extension(rel, "tif"@) ==> headers::content_type(rel) == "image/"@ + "tiff"@,
        has_extension(rel, "tiff"@) ==> headers::content_type(rel) == "image/"@ + "tiff"@,
        has_extension(rel, "apng"@) ==> headers::content_type(rel) == "image/"@ + "apng"@,
{
    lemma_media_type(rel);
    lemma_extension_letters();
    reveal_strlit("png");
    reveal_strlit("jpeg");
    reveal_strlit("gif");
    reveal_strlit("webp");
    reveal_strlit("avif");
    reveal_strlit("bmp");
    reveal_strlit("tiff");
    reveal_strlit("apng");
    reveal_strlit("image/");
    reveal_strlit("image/png");
    reveal_strlit("image/jpeg");
    reveal_strlit("image/gif");
    reveal_strlit("image/webp");
    reveal_strlit("image/avif");
    reveal_strlit("svg+xml");
    reveal_strlit("image/svg+xml");
    reveal_strlit("x-icon");
    reveal_strlit("image/x-icon");
    reveal_strlit("image/bmp");
    reveal_strlit("image/tiff");
    reveal_strlit("image/apng");
    assert("image/png"@ =~= "image/"@ + "png"@);
    assert("image/jpeg"@ =~= "image/"@ + "jpeg"@);
    assert("image/gif"@ =~= "image/"@ + "gif"@);
    assert("image/webp"@ =~= "image/"@ + "webp"@);
    assert("image/avif"@ =~= "image/"@ + "avif"@);
    assert("image/svg+xml"@ =~= "image/"@ + "svg+xml"@);
    assert("image/x-icon"@ =~= "image/"@ + "x-icon"@);
    assert("image/bmp"@ =~= "image/"@ + "bmp"@);
    assert("image/tiff"@ =~= "image/"@ + "tiff"@);
    assert("image/apng"@ =~= "image/"@ + "apng"@);
}

/// Fonts, sound and film, each under the name of its format.
pub proof fn law_types_of_media(rel: Seq<char>)
    ensures
        has_extension(rel, "woff"@) ==> headers::content_type(rel) == "font/"@ + "woff"@,
        has_extension(rel, "woff2"@) ==> headers::content_type(rel) == "font/"@ + "woff2"@,
        has_extension(rel, "ttf"@) ==> headers::content_type(rel) == "font/"@ + "ttf"@,
        has_extension(rel, "otf"@) ==> headers::content_type(rel) == "font/"@ + "otf"@,
        has_extension(rel, "mp3"@) ==> headers::content_type(rel) == "audio/"@ + "mpeg"@,
        has_extension(rel, "ogg"@) ==> headers::content_type(rel) == "audio/"@ + "ogg"@,
        has_extension(rel, "oga"@) ==> headers::content_type(rel) == "audio/"@ + "ogg"@,
        has_extension(rel, "wav"@) ==> headers::content_type(rel) == "audio/"@ + "wav"@,
        has_extension(rel, "flac"@) ==> headers::content_type(rel) == "audio/"@ + "flac"@,
        has_extension(rel, "m4a"@) ==> headers::content_type(rel) == "audio/"@ + "mp4"@,
        has_extension(rel, "aac"@) ==> headers::content_type(rel) == "audio/"@ + "aac"@,
        has_extension(rel, "mp4"@) ==> headers::content_type(rel) == "video/"@ + "mp4"@,
        has_extension(rel, "m4v"@) ==> headers::content_type(rel) == "video/"@ + "mp4"@,
        has_extension(rel, "webm"@) ==> headers::content_type(rel) == "video/"@ + "webm"@,
        has_extension(rel, "ogv"@) ==> headers::content_type(rel) == "video/"@ + "ogg"@,
        has_extension(rel, "mov"@) ==> headers::content_type(rel) == "video/"@ + "quicktime"@,
        has_extension(rel, "avi"@) ==> headers::content_type(rel) == "video/"@ + "x-msvideo"@,
        has_extension(rel, "ts"@) ==> headers::content_type(rel) == "video/"@ + "mp2t"@,
{
    lemma_media_type(rel);
    lemma_extension_letters();
    reveal_strlit("woff");
    reveal_strlit("woff2");
    reveal_strlit("ttf");
    reveal_strlit("otf");
    reveal_strlit("ogg");
    reveal_strlit("wav");
    reveal_strlit("flac");
    reveal_strlit("aac");
    reveal_strlit("mp4");
    reveal_strlit("webm");
    reveal_strlit("font/");
    reveal_strlit("font/woff");
    reveal_strlit("font/woff2");
    reveal_strlit("font/ttf");
    reveal_strlit("font/otf");
    reveal_strlit("audio/");
    reveal_strlit("mpeg");
    reveal_strlit("audio/mpeg");
    reveal_strlit("audio/ogg");
    reveal_strlit("audio/wav");
    reveal_strlit("audio/flac");
    reveal_strlit("audio/mp4");
    reveal_strlit("audio/aac");
    reveal_strlit("video/");
    reveal_strlit("video/mp4");
    reveal_strlit("video/webm");
    reveal_strlit("video/ogg");
    reveal_strlit("quicktime");
    reveal_strlit("video/quicktime");
    reveal_strlit("x-msvideo");
    reveal_strlit("video/x-msvideo");
    reveal_strlit("mp2t");
    reveal_strlit("video/mp2t");
    assert("font/woff"@ =~= "font/"@ + "woff"@);
    assert("font/woff2"@ =~= "font/"@ + "woff2"@);
    assert("font/ttf"@ =~= "font/"@ + "ttf"@);
    assert("font/otf"@ =~= "font/"@ + "otf"@);
    assert("audio/mpeg"@ =~= "audio/"@ + "mpeg"@);
    assert("audio/ogg"@ =~= "audio/"@ + "ogg"@);
    assert("audio/wav"@ =~= "audio/"@ + "wav"@);
    assert("audio/flac"@ =~= "audio/"@ + "flac"@);
    assert("audio/mp4"@ =~= "audio/"@ + "mp4"@);
    assert("audio/aac"@ =~= "audio/"@ + "aac"@);
    assert("video/mp4"@ =~= "video/"@ + "mp4"@);
    assert("video/webm"@ =~= "video/"@ + "webm"@);
    assert("video/ogg"@ =~= "video/"@ + "ogg"@);
    assert("video/quicktime"@ =~= "video/"@ + "quicktime"@);
    assert("video/x-msvideo"@ =~= "video/"@ + "x-msvideo"@);
    assert("video/mp2t"@ =~= "video/"@ + "mp2t"@);
}

/// Documents, data and archives, each under the name of its format.
pub proof fn law_types_of_documents(rel: Seq<char>)
    ensures
        has_extension(rel, "xml"@) ==> headers::content_type(rel) == "application/"@ + "xml"@,
        has_extension(rel, "json"@) ==> headers::content_type(rel) == "application/"@ + "json"@,
        has_extension(rel, "map"@) ==> headers::content_type(rel) == "application/"@ + "json"@,
        has_extension(rel, "webmanifest"@) ==> headers::content_type(rel)
            == "application/"@ + "manifest+json"@,
        has_extension(rel, "jsonld"@) ==> headers::content_type(rel)
            == "application/"@ + "ld+json"@,
        has_extension(rel, "atom"@) ==> headers::content_type(rel) == "application/"@ + "atom+xml"@,
        has_extension(rel, "rss"@) ==> headers::content_type(rel) == "application/"@ + "rss+xml"@,
        has_extension(rel, "pdf"@) ==> headers::content_type(rel) == "application/"@ + "pdf"@,
        has_extension(rel, "rtf"@) ==> headers::content_type(rel) == "application/"@ + "rtf"@,
        has_extension(rel, "ps"@) ==> headers::content_type(rel) == "application/"@ + "postscript"@,
        has_extension(rel, "eps"@) ==> headers::content_type(rel)
            == "application/"@ + "postscript"@,
        has_extension(rel, "wasm"@) ==> headers::content_type(rel) == "application/"@ + "wasm"@,
        has_extension(rel, "eot"@) ==> headers::content_type(rel)
            == "application/"@ + "vnd.ms-fontobject"@,
        has_extension(rel, "gz"@) ==> headers::content_type(rel) == "application/"@ + "gzip"@,
        has_extension(rel, "zst"@) ==> headers::content_type(rel) == "application/"@ + "zstd"@,
        has_extension(rel, "zip"@) ==> headers::content_type(rel) == "application/"@ + "zip"@,
        has_extension(rel, "tar"@) ==> headers::content_type(rel) == "application/"@ + "x-tar"@,
        has_extension(rel, "7z"@) ==> headers::content_type(rel)
            == "application/"@ + "x-7z-compressed"@,
{
    lemma_media_type(rel);
    lemma_extension_letters();
    reveal_strlit("xml");
    reveal_strlit("json");
    reveal_strlit("zip");
    reveal_strlit("pdf");
    reveal_strlit("wasm");
    reveal_strlit("rtf");
    reveal_strlit("application/");
    reveal_strlit("application/xml");
    reveal_strlit("application/json");
    reveal_strlit("manifest+json");
    reveal_strlit("application/manifest+json");
    reveal_strlit("ld+json");
    reveal_strlit("application/ld+json");
    reveal_strlit("atom+xml");
    reveal_strlit("application/atom+xml");
    reveal_strlit("rss+xml");
    reveal_strlit("application/rss+xml");
    reveal_strlit("application/pdf");
    reveal_strlit("application/rtf");
    reveal_strlit("postscript");
    reveal_strlit("application/postscript");
    reveal_strlit("application/wasm");
    reveal_strlit("vnd.ms-fontobject");
    reveal_strlit("application/vnd.ms-fontobject");
    reveal_strlit("gzip");
    reveal_strlit("application/gzip");
    reveal_strlit("zstd");
    reveal_strlit("application/zstd");
    reveal_strlit("application/zip");
    reveal_strlit("x-tar");
    reveal_strlit("application/x-tar");
    reveal_strlit("x-7z-compressed");
    reveal_strlit("application/x-7z-compressed");
    assert("application/xml"@ =~= "application/"@ + "xml"@);
    assert("application/json"@ =~= "application/"@ + "json"@);
    assert("application/manifest+json"@ =~= "application/"@ + "manifest+json"@);
    assert("application/ld+json"@ =~= "application/"@ + "ld+json"@);
    assert("application/atom+xml"@ =~= "application/"@ + "atom+xml"@);
    assert("application/rss+xml"@ =~= "application/"@ + "rss+xml"@);
    assert("application/pdf"@ =~= "application/"@ + "pdf"@);
    assert("application/rtf"@ =~= "application/"@ + "rtf"@);
    assert("application/postscript"@ =~= "application/"@ + "postscript"@);
    assert("application/wasm"@ =~= "application/"@ + "wasm"@);
    assert("application/vnd.ms-fontobject"@ =~= "application/"@ + "vnd.ms-fontobject"@);
    assert("application/gzip"@ =~= "application/"@ + "gzip"@);
    assert("application/zstd"@ =~= "application/"@ + "zstd"@);
    assert("application/zip"@ =~= "application/"@ + "zip"@);
    assert("application/x-tar"@ =~= "application/"@ + "x-tar"@);
    assert("application/x-7z-compressed"@ =~= "application/"@ + "x-7z-compressed"@);
}

/// A path with any other extension, or with none, is opaque bytes.
pub proof fn law_other_types_are_opaque(rel: Seq<char>)
    requires
        !has_extension(rel, "html"@),
        !has_extension(rel, "htm"@),
        !has_extension(rel, "css"@),
        !has_extension(rel, "js"@),
        !has_extension(rel, "mjs"@),
        !has_extension(rel, "txt"@),
        !has_extension(rel, "md"@),
        !has_extension(rel, "csv"@),
        !has_extension(rel, "xml"@),
        !has_extension(rel, "json"@),
        !has_extension(rel, "map"@),
        !has_extension(rel, "webmanifest"@),
        !has_extension(rel, "ics"@),
        !has_extension(rel, "vtt"@),
        !has_extension(rel, "png"@),
        !has_extension(rel, "jpg"@),
        !has_extension(rel, "jpeg"@),
        !has_extension(rel, "gif"@),
        !has_extension(rel, "webp"@),
        !has_extension(rel, "avif"@),
        !has_extension(rel, "svg"@),
        !has_extension(rel, "ico"@),
        !has_extension(rel, "bmp"@),
        !has_extension(rel, "tif"@),
        !has_extension(rel, "tiff"@),
        !has_extension(rel, "apng"@),
        !has_extension(rel, "woff"@),
        !has_extension(rel, "woff2"@),
        !has_extension(rel, "ttf"@),
        !has_extension(rel, "otf"@),
        !has_extension(rel, "eot"@),
        !has_extension(rel, "mp3"@),
        !has_extension(rel, "ogg"@),
        !has_extension(rel, "oga"@),
        !has_extension(rel, "wav"@),
        !has_extension(rel, "flac"@),
        !has_extension(rel, "m4a"@),
        !has_extension(rel, "aac"@),
        !has_extension(rel, "mp4"@),
        !has_extension(rel, "m4v"@),
        !has_extension(rel, "webm"@),
        !has_extension(rel, "ogv"@),
        !has_extension(rel, "mov"@),
        !has_extension(rel, "avi"@),
        !has_extension(rel, "ts"@),
        !has_extension(rel, "gz"@),
        !has_extension(rel, "zst"@),
        !has_extension(rel, "zip"@),
        !has_extension(rel, "tar"@),
        !has_extension(rel, "7z"@),
        !has_extension(rel, "pdf"@),
        !has_extension(rel, "wasm"@),
        !has_extension(rel, "rtf"@),
        !has_extension(rel, "eps"@),
        !has_extension(rel, "ps"@),
        !has_extension(rel, "atom"@),
        !has_extension(rel, "rss"@),
        !has_extension(rel, "jsonld"@),
    ensures
        headers::content_type(rel) == "application/octet-stream"@,
{
    lemma_media_type(rel);
}

} // verus!
