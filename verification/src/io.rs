//! Documents: what a file holds once read, and how it is named.

use std::path::PathBuf;
use vstd::prelude::*;
use vstd::string::StringSliceAdditionalSpecFns;
use vstd::utf8::*;

use crate::text::{lemma_ascii_byte_boundaries, lemma_text_of_bytes, substring};

verus! {

#[verifier::external_type_specification]
#[verifier::external_body]
pub struct ExPathBuf(PathBuf);

/// How the preview shows a document.
#[derive(Clone, Copy, Debug, PartialEq, Eq, Structural)]
pub enum PreviewFormat {
    Markdown,
    Html,
}

/// A document as loaded from (or destined for) a file.
#[derive(Debug)]
pub struct Document {
    pub path: Option<PathBuf>,
    pub text: String,
    pub format: PreviewFormat,
}

/// The name a document shows: its file name, or "Untitled".
pub open spec fn shown_name(file_name: Option<Seq<char>>) -> Seq<char> {
    match file_name {
        Some(name) => name,
        None => "Untitled"@,
    }
}

/// The file name if there is one, else "Untitled".
pub fn name_or_untitled(file_name: Option<String>) -> (name: String)
    ensures
        name@ == shown_name(
            match file_name {
                Some(n) => Some(n@),
                None => None,
            },
        ),
{
    match file_name {
        Some(name) => name,
        None => "Untitled".to_owned(),
    }
}

/// The ASCII letters of `s`, lower-cased.
pub open spec fn ascii_lower(s: Seq<char>) -> Seq<char> {
    s.map_values(|c: char| if 'A' <= c <= 'Z' { ((c as u8) + 32) as u8 as char } else { c })
}

/// `.html` and `.htm` files (in any case) open in the HTML preview.
pub open spec fn is_html_extension(ext: Seq<char>) -> bool {
    ascii_lower(ext) == seq!['h', 't', 'm', 'l'] || ascii_lower(ext) == seq!['h', 't', 'm']
}

impl PreviewFormat {
    /// The format for a file with extension `ext`.
    pub fn for_extension(ext: Option<&str>) -> (format: PreviewFormat)
        ensures
            format == (match ext {
                Some(e) => if is_html_extension(e@) {
                    PreviewFormat::Html
                } else {
                    PreviewFormat::Markdown
                },
                None => PreviewFormat::Markdown,
            }),
    {
        match ext {
            None => PreviewFormat::Markdown,
            Some(e) => {
                let n = e.unicode_len();
                let ghost html = seq!['h', 't', 'm', 'l'];
                let ghost htm = seq!['h', 't', 'm'];
                assert(htm =~= html.take(3));
                if n != 3 && n != 4 {
                    assert(ascii_lower(e@).len() == n);
                    return PreviewFormat::Markdown;
                }
                let mut i: usize = 0;
                while i < n
                    invariant
                        ext == Some(e),
                        n == e@.len(),
                        n == 3 || n == 4,
                        i <= n,
                        html == seq!['h', 't', 'm', 'l'],
                        forall|j: int| 0 <= j < i ==> ascii_lower(e@)[j] == html[j],
                    decreases n - i,
                {
                    let c = e.get_char(i);
                    let lower = if 'A' <= c && c <= 'Z' {
                        ((c as u8) + 32) as char
                    } else {
                        c
                    };
                    let expected = if i == 0 {
                        'h'
                    } else if i == 1 {
                        't'
                    } else if i == 2 {
                        'm'
                    } else {
                        'l'
                    };
                    if lower != expected {
                        assert(ascii_lower(e@)[i as int] != html[i as int]);
                        assert(!(ascii_lower(e@) =~= html));
                        assert(!(ascii_lower(e@) =~= html.take(3)));
                        assert(!is_html_extension(e@));
                        return PreviewFormat::Markdown;
                    }
                    i = i + 1;
                }
                assert(n == 4 ==> ascii_lower(e@) =~= html);
                assert(n == 3 ==> ascii_lower(e@) =~= htm);
                assert(is_html_extension(e@));
                PreviewFormat::Html
            },
        }
    }

    /// The format for the file at `path` (a path written in the syntax of
    /// Windows where `windows` holds, else of Unix): HTML for `.html` and
    /// `.htm`, else Markdown.
    pub fn for_path(path: &str, windows: bool) -> (format: PreviewFormat)
        ensures
            format == format_for(
                match extension_of(path.spec_bytes(), windows) {
                    Some(e) => Some(decode_utf8(e)),
                    None => None,
                },
            ),
    {
        match path_extension(path, windows) {
            Some(ext) => PreviewFormat::for_extension(Some(ext)),
            None => PreviewFormat::Markdown,
        }
    }
}

impl Document {
    pub fn empty() -> (document: Self)
        ensures
            document.path is None,
            document.text@.len() == 0,
            document.format == PreviewFormat::Markdown,
    {
        Document { path: None, text: String::new(), format: PreviewFormat::Markdown }
    }

    /// The document a file holds, given its bytes: the text they spell
    /// where they are valid UTF-8 (line endings kept exactly as they are),
    /// and `None` where they are not. `path_text` is `path` written as text
    /// (in the syntax of Windows where `windows` holds); it decides the
    /// preview format.
    pub fn from_bytes(path: PathBuf, path_text: &str, windows: bool, bytes: Vec<u8>) -> (document: Option<Document>)
        ensures
            valid_utf8(bytes@) <==> document is Some,
            document matches Some(d) ==> {
                &&& encode_utf8(d.text@) == bytes@
                &&& d.path == Some(path)
                &&& d.format == format_for(
                    match extension_of(path_text.spec_bytes(), windows) {
                        Some(e) => Some(decode_utf8(e)),
                        None => None,
                    },
                )
            },
    {
        match text_from_utf8(bytes) {
            Some(text) => {
                let format = PreviewFormat::for_path(path_text, windows);
                Some(Document { path: Some(path), text, format })
            },
            None => None,
        }
    }

    /// The file name, or "Untitled" for a document that has no path yet or
    /// whose path names no file (such as `/`). `windows` says whether the
    /// path is written in the syntax of Windows.
    pub fn display_name(path: Option<&str>, windows: bool) -> (name: String)
        ensures
            name@ == shown_name(
                match path {
                    Some(p) => match file_name_of(p.spec_bytes(), windows) {
                        Some(n) => Some(decode_utf8(n)),
                        None => None,
                    },
                    None => None,
                },
            ),
    {
        match path {
            Some(p) => match path_file_name(p, windows) {
                Some(n) => name_or_untitled(Some(n.to_owned())),
                None => name_or_untitled(None),
            },
            None => name_or_untitled(None),
        }
    }
}


/// `b` is an ASCII hex digit.
pub open spec fn is_hex_digit(b: u8) -> bool {
    (48 <= b <= 57) || (97 <= b <= 102) || (65 <= b <= 70)
}

/// The value of the hex digit `b`.
pub open spec fn hex_value(b: u8) -> int {
    if 48 <= b <= 57 {
        b - 48
    } else if 97 <= b <= 102 {
        b - 87
    } else {
        b - 55
    }
}

/// `s` with each `%` and two hex digits after it replaced by the byte they
/// spell; `None` where a `%` is not followed by two hex digits.
pub open spec fn percent_decoded(s: Seq<u8>) -> Option<Seq<u8>>
    decreases s.len(),
{
    if s.len() == 0 {
        Some(Seq::empty())
    } else if s[0] == 37 {
        if s.len() >= 3 && is_hex_digit(s[1]) && is_hex_digit(s[2]) {
            match percent_decoded(s.subrange(3, s.len() as int)) {
                Some(rest) => Some(seq![(hex_value(s[1]) * 16 + hex_value(s[2])) as u8] + rest),
                None => None,
            }
        } else {
            None
        }
    } else {
        match percent_decoded(s.subrange(1, s.len() as int)) {
            Some(rest) => Some(seq![s[0]] + rest),
            None => None,
        }
    }
}

/// A path such as `/C:/docs`: a slash, a drive letter and a colon.
pub open spec fn starts_with_drive(path: Seq<u8>) -> bool {
    &&& path.len() >= 3
    &&& path[0] == 47
    &&& ((65 <= path[1] <= 90) || (97 <= path[1] <= 122))
    &&& path[2] == 58
}

/// The bytes of the local path that a `file://` URL names: what follows
/// `file://` (or `file://localhost`), starting with `/`, percent-decoded;
/// on Windows a drive path loses its leading slash. `None` for another
/// scheme, another host, or a bad percent escape.
pub open spec fn file_url_path(url: Seq<u8>, windows: bool) -> Option<Seq<u8>> {
    let scheme = seq![102u8, 105u8, 108u8, 101u8, 58u8, 47u8, 47u8];
    let localhost = seq![108u8, 111u8, 99u8, 97u8, 108u8, 104u8, 111u8, 115u8, 116u8];
    if url.len() < 7 || url.subrange(0, 7) != scheme {
        None
    } else {
        let rest = url.subrange(7, url.len() as int);
        let path = if rest.len() > 0 && rest[0] == 47 {
            Some(rest)
        } else if rest.len() > 9 && rest.subrange(0, 9) == localhost && rest[9] == 47 {
            Some(rest.subrange(9, rest.len() as int))
        } else {
            None
        };
        match path {
            Some(p) => match percent_decoded(p) {
                Some(d) => Some(
                    if windows && starts_with_drive(d) {
                        d.subrange(1, d.len() as int)
                    } else {
                        d
                    },
                ),
                None => None,
            },
            None => None,
        }
    }
}

/// Calls `String::from_utf8`, which gives the bytes back as text where they
/// are valid UTF-8 and an error otherwise (the error is dropped).
#[verifier::external_body]
fn text_from_utf8(bytes: Vec<u8>) -> (text: Option<String>)
    ensures
        valid_utf8(bytes@) <==> text is Some,
        text matches Some(t) ==> encode_utf8(t@) == bytes@,
{
    String::from_utf8(bytes).ok()
}

fn hex_digit_value(b: u8) -> (v: Option<u8>)
    ensures
        is_hex_digit(b) <==> v is Some,
        v matches Some(x) ==> x == hex_value(b),
{
    if 48 <= b && b <= 57 {
        Some(b - 48)
    } else if 97 <= b && b <= 102 {
        Some(b - 87)
    } else if 65 <= b && b <= 70 {
        Some(b - 55)
    } else {
        None
    }
}

/// `out` followed by what `rest` decodes to, or `None` where it does not.
pub open spec fn after(out: Seq<u8>, rest: Option<Seq<u8>>) -> Option<Seq<u8>> {
    match rest {
        Some(r) => Some(out + r),
        None => None,
    }
}

fn percent_decode(s: &[u8], from: usize) -> (decoded: Option<Vec<u8>>)
    requires
        from <= s@.len(),
    ensures
        decoded matches Some(d) ==> percent_decoded(s@.subrange(from as int, s@.len() as int)) == Some(d@),
        decoded is None ==> percent_decoded(s@.subrange(from as int, s@.len() as int)) is None,
{
    let n = s.len();
    let ghost whole = s@.subrange(from as int, n as int);
    let mut out: Vec<u8> = Vec::new();
    let mut i = from;
    while i < n
        invariant
            n == s@.len(),
            from <= i <= n,
            whole == s@.subrange(from as int, n as int),
            percent_decoded(whole) == after(out@, percent_decoded(s@.subrange(i as int, n as int))),
        decreases n - i,
    {
        let ghost tail = s@.subrange(i as int, n as int);
        let b = s[i];
        if b == 37u8 {
            if n - i < 3 {
                return None;
            }
            let hi = hex_digit_value(s[i + 1]);
            let lo = hex_digit_value(s[i + 2]);
            match (hi, lo) {
                (Some(h), Some(l)) => {
                    assert(tail.subrange(3, tail.len() as int) =~= s@.subrange(i + 3, n as int));
                    let byte = h * 16 + l;
                    out.push(byte);
                    i = i + 3;
                    proof {
                        let next = percent_decoded(s@.subrange(i as int, n as int));
                        if next is Some {
                            assert(out@ + next->0 =~= (out@.drop_last() + (seq![byte] + next->0)));
                        }
                    }
                },
                _ => {
                    return None;
                },
            }
        } else {
            assert(tail.subrange(1, tail.len() as int) =~= s@.subrange(i + 1, n as int));
            out.push(b);
            i = i + 1;
            proof {
                let next = percent_decoded(s@.subrange(i as int, n as int));
                if next is Some {
                    assert(out@ + next->0 =~= (out@.drop_last() + (seq![b] + next->0)));
                }
            }
        }
    }
    assert(s@.subrange(n as int, n as int) =~= Seq::<u8>::empty());
    assert(out@ + Seq::<u8>::empty() =~= out@);
    Some(out)
}

/// The local path that a `file://` URL names, as the operating system
/// hands over files to open; `None` for anything else. `windows` says
/// whether drive paths (`/C:/...`) lose their leading slash.
pub fn path_from_file_url(url: &str, windows: bool) -> (path: Option<String>)
    ensures
        match file_url_path(url.spec_bytes(), windows) {
            Some(b) => if valid_utf8(b) {
                path matches Some(p) && encode_utf8(p@) == b
            } else {
                path is None
            },
            None => path is None,
        },
{
    let bytes = url.as_bytes();
    let n = bytes.len();
    let scheme: [u8; 7] = [102u8, 105u8, 108u8, 101u8, 58u8, 47u8, 47u8];
    let ghost u = bytes@;
    if n < 7 {
        return None;
    }
    let mut k: usize = 0;
    while k < 7
        invariant
            u == bytes@,
            u == url.spec_bytes(),
            n == u.len(),
            7 <= n,
            k <= 7,
            scheme@ == seq![102u8, 105u8, 108u8, 101u8, 58u8, 47u8, 47u8],
            forall|j: int| 0 <= j < k ==> u[j] == scheme@[j],
        decreases 7 - k,
    {
        if bytes[k] != scheme[k] {
            assert(u.subrange(0, 7)[k as int] != scheme@[k as int]);
            return None;
        }
        k = k + 1;
    }
    assert(u.subrange(0, 7) =~= scheme@);
    let ghost rest = u.subrange(7, n as int);
    let from: usize = if n > 7 && bytes[7] == 47u8 {
        7
    } else {
        let localhost: [u8; 9] = [108u8, 111u8, 99u8, 97u8, 108u8, 104u8, 111u8, 115u8, 116u8];
        if n <= 16 || bytes[16] != 47u8 {
            return None;
        }
        let mut j: usize = 0;
        while j < 9
            invariant
                u == bytes@,
                u == url.spec_bytes(),
                u.subrange(0, 7) == seq![102u8, 105u8, 108u8, 101u8, 58u8, 47u8, 47u8],
                !(rest.len() > 0 && rest[0] == 47),
                n == u.len(),
                16 < n,
                j <= 9,
                rest == u.subrange(7, n as int),
                localhost@ == seq![108u8, 111u8, 99u8, 97u8, 108u8, 104u8, 111u8, 115u8, 116u8],
                forall|m: int| 0 <= m < j ==> rest[m] == localhost@[m],
            decreases 9 - j,
        {
            if bytes[7 + j] != localhost[j] {
                assert(rest.subrange(0, 9)[j as int] != localhost@[j as int]);
                return None;
            }
            j = j + 1;
        }
        assert(rest.subrange(0, 9) =~= localhost@);
        assert(rest.subrange(9, rest.len() as int) =~= u.subrange(16, n as int));
        16
    };
    let decoded = match percent_decode(bytes, from) {
        Some(d) => d,
        None => {
            return None;
        },
    };
    let ghost d = decoded@;
    let drive = windows && decoded.len() >= 3 && decoded[0] == 47u8 && ((65u8 <= decoded[1]
        && decoded[1] <= 90u8) || (97u8 <= decoded[1] && decoded[1] <= 122u8)) && decoded[2] == 58u8;
    let local = if drive {
        let mut trimmed: Vec<u8> = Vec::new();
        let mut m: usize = 1;
        while m < decoded.len()
            invariant
                decoded@ == d,
                1 <= m <= d.len(),
                trimmed@ == d.subrange(1, m as int),
            decreases d.len() - m,
        {
            trimmed.push(decoded[m]);
            m = m + 1;
            assert(trimmed@ =~= d.subrange(1, m as int));
        }
        trimmed
    } else {
        decoded
    };
    text_from_utf8(local)
}


/// `c` is an ASCII letter.
pub open spec fn is_ascii_letter(c: u8) -> bool {
    (65 <= c <= 90) || (97 <= c <= 122)
}

/// `c` separates the components of a path: `/`, and on Windows `\` too;
/// after a verbatim prefix (`\\?\`) only `\` does.
pub open spec fn is_separator(c: u8, windows: bool, verbatim: bool) -> bool {
    if verbatim {
        c == 92
    } else {
        c == 47 || (windows && c == 92)
    }
}

/// A Windows path that starts with the verbatim prefix `\\?\`.
pub open spec fn is_verbatim(b: Seq<u8>, windows: bool) -> bool {
    windows && b.len() >= 4 && b[0] == 92 && b[1] == 92 && b[2] == 63 && b[3] == 92
}

/// The first separator at or after `from`, or the end of the path.
pub open spec fn next_separator(b: Seq<u8>, from: int, windows: bool, verbatim: bool) -> int
    decreases b.len() - from,
{
    if from >= b.len() {
        b.len() as int
    } else if is_separator(b[from], windows, verbatim) {
        from
    } else {
        next_separator(b, from + 1, windows, verbatim)
    }
}

/// How many bytes the path's prefix takes. None on Unix. On Windows: after
/// `\\?\UNC\`, the server name, and the share name with the `\` before it
/// where the share name is not empty; after another `\\?\`, its first
/// component (a drive such as `C:`, or any name); else a drive (`C:`), or
/// a share (`\\server\share`, both names non-empty).
pub open spec fn prefix_len(b: Seq<u8>, windows: bool) -> int {
    if !windows {
        0
    } else if is_verbatim(b, windows) {
        if b.len() >= 8 && b[4] == 85 && b[5] == 78 && b[6] == 67 && b[7] == 92 {
            let server_end = next_separator(b, 8, true, true);
            if server_end < b.len() && next_separator(b, server_end + 1, true, true) > server_end + 1 {
                next_separator(b, server_end + 1, true, true)
            } else {
                server_end
            }
        } else {
            next_separator(b, 4, true, true)
        }
    } else if b.len() >= 2 && is_ascii_letter(b[0]) && b[1] == 58 {
        2
    } else if b.len() >= 2 && is_separator(b[0], true, false) && is_separator(b[1], true, false) {
        let server_end = next_separator(b, 2, true, false);
        if server_end > 2 && server_end < b.len() && next_separator(b, server_end + 1, true, false) > server_end
            + 1 {
            next_separator(b, server_end + 1, true, false)
        } else {
            0
        }
    } else {
        0
    }
}

/// Where the component that ends at `hi` starts: after the separator
/// before it, or at `lo`.
pub open spec fn component_start(b: Seq<u8>, lo: int, hi: int, windows: bool, verbatim: bool) -> int
    decreases hi - lo,
{
    if hi <= lo {
        lo
    } else if is_separator(b[hi - 1], windows, verbatim) {
        hi
    } else {
        component_start(b, lo, hi - 1, windows, verbatim)
    }
}

/// A component starts at or after `lo`, before its non-separator end,
/// and right after a separator unless at `lo`.
pub proof fn lemma_component_start(b: Seq<u8>, lo: int, hi: int, windows: bool, verbatim: bool)
    ensures
        lo <= hi ==> lo <= component_start(b, lo, hi, windows, verbatim) <= hi,
        lo < hi && !is_separator(b[hi - 1], windows, verbatim) ==> component_start(b, lo, hi, windows, verbatim)
            < hi,
        lo < component_start(b, lo, hi, windows, verbatim) ==> is_separator(
            b[component_start(b, lo, hi, windows, verbatim) - 1],
            windows,
            verbatim,
        ),
    decreases hi - lo,
{
    if lo < hi && !is_separator(b[hi - 1], windows, verbatim) {
        lemma_component_start(b, lo, hi - 1, windows, verbatim);
    }
}

/// The byte range of the last component of `b[lo..hi]` that names
/// something: separators at the end are passed over, and so are `.`
/// components outside verbatim paths; `None` where nothing is left, or
/// where that component is `..`, or `.` in a verbatim path.
pub open spec fn last_component(b: Seq<u8>, lo: int, hi: int, windows: bool, verbatim: bool) -> Option<
    (int, int),
>
    decreases hi - lo,
{
    if hi <= lo {
        None
    } else if is_separator(b[hi - 1], windows, verbatim) {
        last_component(b, lo, hi - 1, windows, verbatim)
    } else {
        let s = component_start(b, lo, hi, windows, verbatim);
        proof {
            lemma_component_start(b, lo, hi, windows, verbatim);
        }
        if hi - s == 1 && b[s] == 46 {
            if verbatim {
                None
            } else {
                last_component(b, lo, s, windows, verbatim)
            }
        } else if hi - s == 2 && b[s] == 46 && b[s + 1] == 46 {
            None
        } else {
            Some((s, hi))
        }
    }
}

/// The byte range of the file name of a path, as `Path::file_name` finds
/// it: its last component after the prefix, unless that is `..` (or `.`
/// in a verbatim path) or there is none.
pub open spec fn file_name_range(b: Seq<u8>, windows: bool) -> Option<(int, int)> {
    last_component(b, prefix_len(b, windows), b.len() as int, windows, is_verbatim(b, windows))
}

/// The bytes of the file name of a path.
pub open spec fn file_name_of(b: Seq<u8>, windows: bool) -> Option<Seq<u8>> {
    match file_name_range(b, windows) {
        Some(r) => Some(b.subrange(r.0, r.1)),
        None => None,
    }
}

/// The last `.` in `b[lo..hi]`, or `lo - 1` where there is none.
pub open spec fn last_dot(b: Seq<u8>, lo: int, hi: int) -> int
    decreases hi - lo,
{
    if hi <= lo {
        lo - 1
    } else if b[hi - 1] == 46 {
        hi - 1
    } else {
        last_dot(b, lo, hi - 1)
    }
}

/// The bytes of the extension of a path, as `Path::extension` finds it:
/// what follows the last `.` of the file name, where the name has a `.`
/// other than at its start.
pub open spec fn extension_of(b: Seq<u8>, windows: bool) -> Option<Seq<u8>> {
    match file_name_range(b, windows) {
        Some(r) => if last_dot(b, r.0, r.1) > r.0 {
            Some(b.subrange(last_dot(b, r.0, r.1) + 1, r.1))
        } else {
            None
        },
        None => None,
    }
}

/// The preview format for a file with extension `ext`.
pub open spec fn format_for(ext: Option<Seq<char>>) -> PreviewFormat {
    match ext {
        Some(e) => if is_html_extension(e) {
            PreviewFormat::Html
        } else {
            PreviewFormat::Markdown
        },
        None => PreviewFormat::Markdown,
    }
}

fn is_separator_byte(c: u8, windows: bool, verbatim: bool) -> (sep: bool)
    ensures
        sep == is_separator(c, windows, verbatim),
{
    if verbatim {
        c == 92u8
    } else {
        c == 47u8 || (windows && c == 92u8)
    }
}

fn find_separator(b: &[u8], from: usize, windows: bool, verbatim: bool) -> (at: usize)
    requires
        from <= b@.len(),
    ensures
        at == next_separator(b@, from as int, windows, verbatim),
        from <= at <= b@.len(),
        at < b@.len() ==> is_separator(b@[at as int], windows, verbatim),
{
    let mut i = from;
    while i < b.len() && !is_separator_byte(b[i], windows, verbatim)
        invariant
            from <= i <= b@.len(),
            next_separator(b@, i as int, windows, verbatim) == next_separator(b@, from as int, windows, verbatim),
        decreases b@.len() - i,
    {
        i = i + 1;
    }
    i
}

fn verbatim_path(b: &[u8], windows: bool) -> (v: bool)
    ensures
        v == is_verbatim(b@, windows),
{
    windows && b.len() >= 4 && b[0] == 92u8 && b[1] == 92u8 && b[2] == 63u8 && b[3] == 92u8
}

fn prefix_length(b: &[u8], windows: bool) -> (p: usize)
    ensures
        p == prefix_len(b@, windows),
        p <= b@.len(),
        p == 0 || (p == 2 && b@[1] == 58) || p == b@.len() || b@[p as int] == 47 || b@[p as int] == 92,
{
    let n = b.len();
    if !windows {
        return 0;
    }
    if verbatim_path(b, windows) {
        if n >= 8 && b[4] == 85u8 && b[5] == 78u8 && b[6] == 67u8 && b[7] == 92u8 {
            let server_end = find_separator(b, 8, true, true);
            if server_end < n {
                let share_end = find_separator(b, server_end + 1, true, true);
                if share_end > server_end + 1 {
                    return share_end;
                }
            }
            return server_end;
        }
        return find_separator(b, 4, true, true);
    }
    if n < 2 {
        return 0;
    }
    if ((65u8 <= b[0] && b[0] <= 90u8) || (97u8 <= b[0] && b[0] <= 122u8)) && b[1] == 58u8 {
        return 2;
    }
    if is_separator_byte(b[0], true, false) && is_separator_byte(b[1], true, false) {
        let server_end = find_separator(b, 2, true, false);
        if server_end > 2 && server_end < n {
            let share_end = find_separator(b, server_end + 1, true, false);
            if share_end > server_end + 1 {
                return share_end;
            }
        }
    }
    0
}

/// The byte range of the last component of `b[lo..]` that names
/// something.
fn last_component_range(b: &[u8], lo: usize, windows: bool, verbatim: bool) -> (r: Option<(usize, usize)>)
    requires
        lo <= b@.len(),
    ensures
        match last_component(b@, lo as int, b@.len() as int, windows, verbatim) {
            Some(c) => r matches Some(x) && x.0 == c.0 && x.1 == c.1,
            None => r is None,
        },
        r matches Some(x) ==> lo <= x.0 < x.1 <= b@.len() && (x.0 == lo || is_separator(
            b@[x.0 - 1],
            windows,
            verbatim,
        )) && (x.1 == b@.len() || is_separator(b@[x.1 as int], windows, verbatim)),
{
    let n = b.len();
    let mut hi = n;
    while hi > lo
        invariant
            n == b@.len(),
            lo <= hi <= n,
            last_component(b@, lo as int, hi as int, windows, verbatim) == last_component(
                b@,
                lo as int,
                n as int,
                windows,
                verbatim,
            ),
            hi == n || hi == lo || is_separator(b@[hi as int], windows, verbatim) || is_separator(
                b@[hi - 1],
                windows,
                verbatim,
            ),
        decreases hi,
    {
        if is_separator_byte(b[hi - 1], windows, verbatim) {
            hi = hi - 1;
            continue;
        }
        let mut s = hi;
        while s > lo && !is_separator_byte(b[s - 1], windows, verbatim)
            invariant
                lo <= s <= hi,
                hi <= b@.len(),
                component_start(b@, lo as int, s as int, windows, verbatim) == component_start(
                    b@,
                    lo as int,
                    hi as int,
                    windows,
                    verbatim,
                ),
            decreases s,
        {
            s = s - 1;
        }
        proof {
            lemma_component_start(b@, lo as int, hi as int, windows, verbatim);
        }
        if hi - s == 1 && b[s] == 46u8 {
            if verbatim {
                return None;
            }
            hi = s;
            continue;
        }
        if hi - s == 2 && b[s] == 46u8 && b[s + 1] == 46u8 {
            return None;
        }
        return Some((s, hi));
    }
    None
}

/// The byte range of the file name of `path`, where it has one; its ends
/// fall on character boundaries.
fn file_name_bytes(path: &str, windows: bool) -> (r: Option<(usize, usize)>)
    ensures
        match file_name_range(path.spec_bytes(), windows) {
            Some(c) => r matches Some(x) && x.0 == c.0 && x.1 == c.1,
            None => r is None,
        },
        r matches Some(x) ==> x.0 < x.1 <= path.spec_bytes().len() && is_char_boundary(
            path.spec_bytes(),
            x.0 as int,
        ) && is_char_boundary(path.spec_bytes(), x.1 as int),
{
    let b = path.as_bytes();
    let lo = prefix_length(b, windows);
    let verbatim = verbatim_path(b, windows);
    let range = last_component_range(b, lo, windows, verbatim);
    if let Some((s, e)) = range {
        proof {
            lemma_separated_piece_boundaries(path, lo as int, s as int, e as int, windows, verbatim);
        }
    }
    range
}

/// The file name of `path` as text, where it has one.
fn path_file_name(path: &str, windows: bool) -> (name: Option<&str>)
    ensures
        match file_name_of(path.spec_bytes(), windows) {
            Some(n) => name matches Some(t) && t@ == decode_utf8(n),
            None => name is None,
        },
{
    match file_name_bytes(path, windows) {
        Some((s, e)) => {
            let name = substring(path, s, e);
            proof {
                lemma_text_of_bytes(name);
            }
            Some(name)
        },
        None => None,
    }
}

/// The extension of `path` as text, where it has one.
fn path_extension(path: &str, windows: bool) -> (ext: Option<&str>)
    ensures
        match extension_of(path.spec_bytes(), windows) {
            Some(e) => ext matches Some(t) && t@ == decode_utf8(e),
            None => ext is None,
        },
{
    let b = path.as_bytes();
    match file_name_bytes(path, windows) {
        Some((s, e)) => {
            let mut d = e;
            while d > s && b[d - 1] != 46u8
                invariant
                    s <= d <= e,
                    e <= b@.len(),
                    last_dot(b@, s as int, d as int) == last_dot(b@, s as int, e as int),
                decreases d,
            {
                d = d - 1;
            }
            // `d` is one past the last dot, or `s` where there is none.
            if d <= s + 1 {
                return None;
            }
            proof {
                encode_utf8_valid_utf8(path@);
                lemma_ascii_byte_boundaries(b@, d - 1);
            }
            let ext = substring(path, d, e);
            proof {
                lemma_text_of_bytes(ext);
            }
            Some(ext)
        },
        None => None,
    }
}

/// The ends of a component of a path fall on character boundaries: each
/// sits at the prefix's end, the text's end, or next to a separator.
proof fn lemma_separated_piece_boundaries(path: &str, lo: int, s: int, e: int, windows: bool, verbatim: bool)
    requires
        lo == 0 || (lo == 2 && path.spec_bytes()[1] == 58) || lo == path.spec_bytes().len()
            || path.spec_bytes()[lo] == 47 || path.spec_bytes()[lo] == 92,
        0 <= lo <= s < e <= path.spec_bytes().len(),
        s == lo || is_separator(path.spec_bytes()[s - 1], windows, verbatim),
        e == path.spec_bytes().len() || is_separator(path.spec_bytes()[e], windows, verbatim),
    ensures
        is_char_boundary(path.spec_bytes(), s),
        is_char_boundary(path.spec_bytes(), e),
{
    let b = path.spec_bytes();
    encode_utf8_valid_utf8(path@);
    is_char_boundary_start_end_of_seq(b);
    if s > lo {
        lemma_ascii_byte_boundaries(b, s - 1);
    } else if lo == 2 && b[1] == 58 {
        lemma_ascii_byte_boundaries(b, 1);
    } else if 0 < lo < b.len() {
        lemma_ascii_byte_boundaries(b, lo);
    }
    if e < b.len() {
        lemma_ascii_byte_boundaries(b, e);
    }
}


proof fn lemma_last_dot(b: Seq<u8>, lo: int, hi: int)
    requires
        0 <= lo <= hi <= b.len(),
    ensures
        lo - 1 <= last_dot(b, lo, hi) < hi,
        last_dot(b, lo, hi) >= lo ==> b[last_dot(b, lo, hi)] == 46,
        forall|j: int| last_dot(b, lo, hi) < j < hi && lo <= j ==> #[trigger] b[j] != 46,
    decreases hi - lo,
{
    if hi > lo && b[hi - 1] != 46 {
        lemma_last_dot(b, lo, hi - 1);
    }
}

/// `name[k]` is the last `.` of `name`, and not its first character.
pub open spec fn is_last_dot(name: Seq<u8>, k: int) -> bool {
    &&& 0 < k < name.len()
    &&& name[k] == 46
    &&& forall|j: int| k < j < name.len() ==> #[trigger] name[j] != 46
}

/// A path's extension is what follows the last `.` of its file name,
/// where that `.` is not the name's first character; a name with no such
/// `.`, or a path with no file name, has no extension.
pub open spec fn extension_follows_last_dot(path: Seq<u8>, windows: bool) -> bool {
    match file_name_of(path, windows) {
        None => extension_of(path, windows) is None,
        Some(name) => match extension_of(path, windows) {
            Some(ext) => is_last_dot(name, name.len() - ext.len() - 1) && ext == name.subrange(
                name.len() - ext.len(),
                name.len() as int,
            ),
            None => forall|k: int| 0 < k < name.len() ==> #[trigger] name[k] != 46,
        },
    }
}

/// A path's extension is what follows the last `.` of its file name, where
/// that `.` is not the name's first character; a name with no such `.`,
/// or a path with no file name, has no extension.
pub proof fn lemma_extension_follows_last_dot_of_file_name(path: Seq<u8>, windows: bool)
    ensures
        extension_follows_last_dot(path, windows),
{
    if let Some(r) = file_name_range(path, windows) {
        let lo = prefix_len(path, windows);
        let verbatim = is_verbatim(path, windows);
        lemma_prefix_len_bounds(path, windows);
        lemma_last_component_bounds(path, lo, path.len() as int, windows, verbatim);
        let s = r.0;
        let e = r.1;
        let name = path.subrange(s, e);
        lemma_last_dot(path, s, e);
        let d = last_dot(path, s, e);
        assert(file_name_of(path, windows) == Some(name));
        if d > s {
            let k = d - s;
            assert(name[k] == 46);
            assert forall|j: int| k < j < name.len() implies #[trigger] name[j] != 46 by {
                assert(name[j] == path[s + j]);
            }
            assert(path.subrange(d + 1, e) =~= name.subrange(k + 1, name.len() as int));
            assert(extension_of(path, windows) == Some(name.subrange(k + 1, name.len() as int)));
            assert(is_last_dot(name, k));
            assert(name.len() - name.subrange(k + 1, name.len() as int).len() - 1 == k);
            assert(extension_follows_last_dot(path, windows));
        } else {
            assert(extension_of(path, windows) is None);
            assert forall|k: int| 0 < k < name.len() implies #[trigger] name[k] != 46 by {
                assert(name[k] == path[s + k]);
            }
            assert(extension_follows_last_dot(path, windows));
        }
    } else {
        assert(file_name_of(path, windows) is None);
        assert(extension_of(path, windows) is None);
        assert(extension_follows_last_dot(path, windows));
    }
}

/// The extension depends on the file name alone: two paths with the same
/// file name (such as `page.html` and `/dir/page.html`) have the same
/// extension, and so open in the same preview format.
pub proof fn lemma_extension_depends_only_on_file_name(a: Seq<u8>, wa: bool, b: Seq<u8>, wb: bool)
    requires
        file_name_of(a, wa) == file_name_of(b, wb),
    ensures
        extension_of(a, wa) == extension_of(b, wb),
{
    lemma_extension_follows_last_dot_of_file_name(a, wa);
    lemma_extension_follows_last_dot_of_file_name(b, wb);
    if let Some(name) = file_name_of(a, wa) {
        let n = name.len() as int;
        if extension_of(a, wa) is Some && extension_of(b, wb) is Some {
            let k1 = n - extension_of(a, wa)->0.len() - 1;
            let k2 = n - extension_of(b, wb)->0.len() - 1;
            assert(is_last_dot(name, k1) && is_last_dot(name, k2));
            if k1 < k2 {
                assert(name[k2] != 46);
            } else if k2 < k1 {
                assert(name[k1] != 46);
            }
        } else if extension_of(a, wa) is Some {
            let k1 = n - extension_of(a, wa)->0.len() - 1;
            assert(is_last_dot(name, k1));
            assert(name[k1] == 46);
        } else if extension_of(b, wb) is Some {
            let k2 = n - extension_of(b, wb)->0.len() - 1;
            assert(is_last_dot(name, k2));
            assert(name[k2] == 46);
        }
    }
}

proof fn lemma_last_component_bounds(b: Seq<u8>, lo: int, hi: int, windows: bool, verbatim: bool)
    requires
        0 <= lo,
        hi <= b.len(),
    ensures
        last_component(b, lo, hi, windows, verbatim) matches Some(r) ==> lo <= r.0 < r.1 <= hi,
    decreases hi - lo,
{
    if hi > lo {
        if is_separator(b[hi - 1], windows, verbatim) {
            lemma_last_component_bounds(b, lo, hi - 1, windows, verbatim);
        } else {
            let s = component_start(b, lo, hi, windows, verbatim);
            lemma_component_start(b, lo, hi, windows, verbatim);
            if hi - s == 1 && b[s] == 46 && !verbatim {
                lemma_last_component_bounds(b, lo, s, windows, verbatim);
            }
        }
    }
}


proof fn lemma_next_separator(b: Seq<u8>, from: int, windows: bool, verbatim: bool)
    ensures
        next_separator(b, from, windows, verbatim) <= b.len(),
        from <= b.len() ==> from <= next_separator(b, from, windows, verbatim),
    decreases b.len() - from,
{
    if from < b.len() && !is_separator(b[from], windows, verbatim) {
        lemma_next_separator(b, from + 1, windows, verbatim);
    }
}

proof fn lemma_prefix_len_bounds(b: Seq<u8>, windows: bool)
    ensures
        0 <= prefix_len(b, windows) <= b.len(),
{
    lemma_next_separator(b, 2, true, false);
    lemma_next_separator(b, 4, true, true);
    lemma_next_separator(b, 8, true, true);
    lemma_next_separator(b, next_separator(b, 2, true, false) + 1, true, false);
    lemma_next_separator(b, next_separator(b, 8, true, true) + 1, true, true);
}


proof fn lemma_component_start_at(b: Seq<u8>, lo: int, m: int, hi: int, windows: bool, verbatim: bool)
    requires
        lo <= m <= hi,
        m == lo || is_separator(b[m - 1], windows, verbatim),
        forall|j: int| m <= j < hi ==> !is_separator(#[trigger] b[j], windows, verbatim),
    ensures
        component_start(b, lo, hi, windows, verbatim) == m,
    decreases hi - m,
{
    if hi > m {
        lemma_component_start_at(b, lo, m, hi - 1, windows, verbatim);
    }
}

/// `name` can stand as a file name on Unix: not empty, without `/`, and
/// neither `.` nor `..`.
pub open spec fn plain_unix_name(name: Seq<u8>) -> bool {
    &&& name.len() > 0
    &&& forall|j: int| 0 <= j < name.len() ==> #[trigger] name[j] != 47
    &&& name != seq![46u8]
    &&& name != seq![46u8, 46u8]
}

/// On Unix the file name of a path is its last component, whatever comes
/// before it: `name` alone, and any directory, `/` and `name`, all have
/// the file name `name`.
pub proof fn lemma_unix_file_name_is_last_component(dir: Seq<u8>, name: Seq<u8>)
    requires
        plain_unix_name(name),
    ensures
        file_name_of(name, false) == Some(name),
        file_name_of(dir + seq![47u8] + name, false) == Some(name),
{
    let n = name.len() as int;
    assert(name[n - 1] != 47);
    lemma_component_start_at(name, 0, 0, n, false, false);
    if n == 1 {
        assert(name =~= seq![name[0]]);
    }
    if n == 2 {
        assert(name =~= seq![name[0], name[1]]);
    }
    assert(name.subrange(0, n) =~= name);
    let b = dir + seq![47u8] + name;
    let m = dir.len() + 1int;
    assert(b[m - 1] == 47);
    assert forall|j: int| m <= j < b.len() implies !is_separator(#[trigger] b[j], false, false) by {
        assert(b[j] == name[j - m]);
    }
    assert(b[b.len() - 1] == name[n - 1]);
    lemma_component_start_at(b, 0, m, b.len() as int, false, false);
    assert(b.subrange(m, b.len() as int) =~= name);
    if n == 1 {
        assert(b[m] == name[0]);
    }
    if n == 2 {
        assert(b[m] == name[0] && b[m + 1] == name[1]);
    }
}


/// The hex digit for `v` (from 0 to 15), in upper or lower case.
pub open spec fn hex_char(v: int, upper: bool) -> u8 {
    if v < 10 {
        (48 + v) as u8
    } else if upper {
        (55 + v) as u8
    } else {
        (87 + v) as u8
    }
}

/// Every byte of `s` written as `%` and two hex digits.
pub open spec fn percent_encoded(s: Seq<u8>, upper: bool) -> Seq<u8>
    decreases s.len(),
{
    if s.len() == 0 {
        Seq::empty()
    } else {
        seq![37u8, hex_char(s[0] as int / 16, upper), hex_char(s[0] as int % 16, upper)] + percent_encoded(
            s.subrange(1, s.len() as int),
            upper,
        )
    }
}

/// Percent-decoding undoes percent-encoding, with hex digits in either
/// case: any bytes written as `%XX` each decode back to themselves.
pub proof fn lemma_percent_decoding_undoes_encoding(s: Seq<u8>, upper: bool)
    ensures
        percent_decoded(percent_encoded(s, upper)) == Some(s),
    decreases s.len(),
{
    if s.len() > 0 {
        let rest = s.subrange(1, s.len() as int);
        lemma_percent_decoding_undoes_encoding(rest, upper);
        let e = percent_encoded(s, upper);
        let hi = s[0] as int / 16;
        let lo = s[0] as int % 16;
        assert(0 <= hi < 16 && 0 <= lo < 16);
        assert(is_hex_digit(hex_char(hi, upper)) && hex_value(hex_char(hi, upper)) == hi);
        assert(is_hex_digit(hex_char(lo, upper)) && hex_value(hex_char(lo, upper)) == lo);
        assert(e[0] == 37 && e[1] == hex_char(hi, upper) && e[2] == hex_char(lo, upper));
        assert(e.subrange(3, e.len() as int) =~= percent_encoded(rest, upper));
        assert(hi * 16 + lo == s[0]);
        assert(seq![s[0]] + rest =~= s);
    } else {
        assert(s =~= Seq::<u8>::empty());
    }
}

/// Bytes with no `%` in them decode to themselves.
pub proof fn lemma_percent_decoding_keeps_plain_bytes(s: Seq<u8>)
    requires
        forall|i: int| 0 <= i < s.len() ==> #[trigger] s[i] != 37,
    ensures
        percent_decoded(s) == Some(s),
    decreases s.len(),
{
    if s.len() > 0 {
        let rest = s.subrange(1, s.len() as int);
        assert forall|i: int| 0 <= i < rest.len() implies #[trigger] rest[i] != 37 by {
            assert(rest[i] == s[i + 1]);
        }
        lemma_percent_decoding_keeps_plain_bytes(rest);
        assert(seq![s[0]] + rest =~= s);
    } else {
        assert(s =~= Seq::<u8>::empty());
    }
}


/// `file://` as bytes.
pub open spec fn file_scheme() -> Seq<u8> {
    seq![102u8, 105u8, 108u8, 101u8, 58u8, 47u8, 47u8]
}

/// `localhost` as bytes.
pub open spec fn localhost_host() -> Seq<u8> {
    seq![108u8, 111u8, 99u8, 97u8, 108u8, 104u8, 111u8, 115u8, 116u8]
}

/// A `file://` URL names the path written after it: for a path that
/// starts with `/` and holds no `%`, `file://` and the path, and
/// `file://localhost` and the path, both name that path (on Unix; on
/// Windows too unless the path starts with a drive such as `/C:`).
pub proof fn lemma_file_url_names_its_path(path: Seq<u8>, windows: bool)
    requires
        path.len() > 0,
        path[0] == 47,
        forall|i: int| 0 <= i < path.len() ==> #[trigger] path[i] != 37,
        windows ==> !starts_with_drive(path),
    ensures
        file_url_path(file_scheme() + path, windows) == Some(path),
        file_url_path(file_scheme() + localhost_host() + path, windows) == Some(path),
{
    lemma_percent_decoding_keeps_plain_bytes(path);
    let u1 = file_scheme() + path;
    assert(u1.subrange(0, 7) =~= file_scheme());
    assert(u1.subrange(7, u1.len() as int) =~= path);
    let u2 = file_scheme() + localhost_host() + path;
    assert(u2.subrange(0, 7) =~= file_scheme());
    let rest = u2.subrange(7, u2.len() as int);
    assert(rest =~= localhost_host() + path);
    assert(rest.subrange(0, 9) =~= localhost_host());
    assert(rest[9] == 47);
    assert(rest.subrange(9, rest.len() as int) =~= path);
}

} // verus!
