//! Break slides for the spectator screen: images and PDFs from a directory
//! that is scanned again before every change of slide, so files can be added,
//! replaced or removed while the quiz runs. Every page of a PDF is a slide of
//! its own, rendered to PNG with poppler's `pdftoppm`.
//!
//! Slides are shown in file name order; prefix names with numbers to choose
//! it.
//!
//! Nothing here touches the disk. A scan is a conversation: `Library::begin`
//! takes the names in the directory and says which to look at,
//! `Library::must_load` says which of those have to be loaded, and
//! `Library::scan` takes what was loaded and gives all slides in order.

use crate::count::{count, count_permutation, count_same};
use crate::promises::counting_is_picking_out;
use crate::quiz::{is_named_first, name_key, name_keys_compare_bytes, name_rank, texts};
use crate::sort::{
    key_lt, key_lt_is_total, keys_of, listed, order, order_is_sorted, order_of, Key, Rank,
};
use crate::text::{
    chars_of, decimal, decimal_len, decimal_string, find_char, hex_number, hex_padded, is_space,
    lex_before, lex_le, lex_total, padded_hex_stands_for_its_number, push_hex_padded, read_unsigned,
    same, same_chars, sixteens, string_of, trim, trim_range, trim_skips, unsigned, until,
    until_after, written_numbers_are_read,
};
use std::sync::Arc;
use vstd::prelude::*;
use vstd::utf8::{decode_utf8, valid_utf8};

verus! {

/// Width of rendered PDF pages, or height for portrait ones: sharp on a
/// 1080p stream even at full size.
pub const RENDER_PIXELS: &'static str = "1920";

pub struct Slide {
    /// Name under `/slides/`, derived from the content, so browsers may
    /// cache it forever.
    pub name: String,
    /// File name without extension.
    pub alt: String,
    /// File name and page: the order slides are shown in.
    pub order: (String, u32),
    pub content_type: &'static str,
    pub body: Vec<u8>,
}

impl Slide {
    /// What slides are sorted by: the file, then the page.
    pub open spec fn key(&self) -> Key {
        Key { first: 0, text: self.order.0@, second: self.order.1 as nat }
    }
}

// Names

pub enum Kind {
    Pdf,
    Image(&'static str),
}

/// What text `String::from_utf8_lossy` makes of bytes.
pub uninterp spec fn lossy_text(bytes: Seq<u8>) -> Seq<char>;

/// `String::from_utf8_lossy`: the bytes as text, which depends on the bytes
/// alone and is called `lossy_text`. Bytes that are UTF-8 are decoded; what
/// replaces other bytes is not said.
#[verifier::external_body]
fn lossy(bytes: &[u8]) -> (r: String)
    ensures
        r@ == lossy_text(bytes@),
        valid_utf8(bytes@) ==> r@ == decode_utf8(bytes@),
{
    String::from_utf8_lossy(bytes).into_owned()
}

pub const DOT: u8 = 46;

/// Where the last dot of a name is, or -1.
pub open spec fn last_dot(name: Seq<u8>) -> int
    decreases name.len(),
{
    if name.len() == 0 {
        -1
    } else if name.last() == DOT {
        name.len() - 1
    } else {
        last_dot(name.drop_last())
    }
}

/// A file name without its extension. A dot at the beginning of a name begins
/// no extension.
pub open spec fn stem_of(name: Seq<u8>) -> Seq<u8> {
    if last_dot(name) > 0 {
        name.take(last_dot(name))
    } else {
        name
    }
}

/// The extension of a file name.
pub open spec fn extension_of(name: Seq<u8>) -> Option<Seq<u8>> {
    if last_dot(name) > 0 {
        Some(name.skip(last_dot(name) + 1))
    } else {
        None
    }
}

/// An ASCII capital becomes a small letter.
pub open spec fn lower(b: u8) -> u8 {
    if 65 <= b <= 90 {
        (b + 32) as u8
    } else {
        b
    }
}

/// Bytes as characters, with ASCII capitals made small.
pub open spec fn lowercase(bytes: Seq<u8>) -> Seq<char> {
    bytes.map_values(|b: u8| lower(b) as char)
}

/// Where the last dot of a name is.
fn find_dot(name: &Vec<u8>) -> (r: Option<usize>)
    ensures
        match r {
            Some(i) => i == last_dot(name@) && i < name@.len(),
            None => last_dot(name@) == -1,
        },
{
    let mut n: usize = name.len();
    assert(name@.take(n as int) =~= name@);
    while n > 0
        invariant
            n <= name@.len(),
            last_dot(name@) == last_dot(name@.take(n as int)),
        decreases n,
    {
        if name[n - 1] == DOT {
            return Some(n - 1);
        }
        assert(name@.take(n as int).drop_last() =~= name@.take(n - 1));
        n -= 1;
    }
    None
}

/// The extension of a file name in small letters.
pub open spec fn small_extension(name: Seq<u8>) -> Option<Seq<char>> {
    match extension_of(name) {
        Some(ext) => Some(lowercase(ext)),
        None => None,
    }
}

fn extension(name: &Vec<u8>) -> (r: Option<String>)
    ensures
        match r {
            Some(ext) => small_extension(name@) == Some(ext@),
            None => small_extension(name@) is None,
        },
{
    match find_dot(name) {
        Some(dot) => {
            if dot == 0 {
                return None;
            }
            let mut out = String::new();
            let n: usize = name.len();
            let mut i: usize = dot + 1;
            let ghost ext = name@.skip(dot + 1);
            while i < n
                invariant
                    n == name@.len(),
                    dot + 1 <= i <= n,
                    ext == name@.skip(dot + 1),
                    out@ == lowercase(ext.take(i - dot - 1)),
                decreases n - i,
            {
                let b = name[i];
                let small: u8 = if 65 <= b && b <= 90 {
                    b + 32
                } else {
                    b
                };
                out.push(small as char);
                i += 1;
                assert(out@ =~= lowercase(ext.take(i - dot - 1)));
            }
            assert(ext.take(i - dot - 1) =~= ext);
            Some(out)
        },
        None => None,
    }
}

/// What kind of slide a file is, by its extension.
pub open spec fn kind_of(name: Seq<u8>) -> Option<Kind> {
    match small_extension(name) {
        Some(ext) => if ext == "pdf"@ {
            Some(Kind::Pdf)
        } else if ext == "png"@ {
            Some(Kind::Image("image/png"))
        } else if ext == "jpg"@ || ext == "jpeg"@ {
            Some(Kind::Image("image/jpeg"))
        } else if ext == "webp"@ {
            Some(Kind::Image("image/webp"))
        } else {
            None
        },
        None => None,
    }
}

/// What kind of slide a file is. Other files are none.
pub fn kind(name: &Vec<u8>) -> (r: Option<Kind>)
    ensures
        r == kind_of(name@),
{
    match extension(name) {
        Some(ext) => {
            let ext = ext.as_str();
            if same(ext, "pdf") {
                Some(Kind::Pdf)
            } else if same(ext, "png") {
                Some(Kind::Image("image/png"))
            } else if same(ext, "jpg") || same(ext, "jpeg") {
                Some(Kind::Image("image/jpeg"))
            } else if same(ext, "webp") {
                Some(Kind::Image("image/webp"))
            } else {
                None
            }
        },
        None => None,
    }
}

// Slides

/// The 64-bit FNV-1a hash.
pub open spec fn fnv1a_of(bytes: Seq<u8>) -> u64
    decreases bytes.len(),
{
    if bytes.len() == 0 {
        0xcbf29ce484222325
    } else {
        (fnv1a_of(bytes.drop_last()) ^ (bytes.last() as u64)).wrapping_mul(0x100000001b3)
    }
}

pub fn fnv1a(bytes: &[u8]) -> (r: u64)
    ensures
        r == fnv1a_of(bytes@),
{
    let mut hash: u64 = 0xcbf29ce484222325;
    let mut i: usize = 0;
    assert(bytes@.take(0) =~= Seq::<u8>::empty());
    while i < bytes.len()
        invariant
            i <= bytes@.len(),
            hash == fnv1a_of(bytes@.take(i as int)),
        decreases bytes@.len() - i,
    {
        assert(bytes@.take(i + 1).drop_last() =~= bytes@.take(i as int));
        hash = (hash ^ (bytes[i] as u64)).wrapping_mul(0x100000001b3);
        i += 1;
    }
    assert(bytes@.take(i as int) =~= bytes@);
    hash
}

/// The name of a slide with this content.
pub open spec fn name_for(body: Seq<u8>, ext: Seq<char>) -> Seq<char> {
    hex_padded(fnv1a_of(body) as nat, 16) + "."@ + ext
}

/// What page `page` of a file is as a slide.
pub open spec fn is_slide_of(
    s: Slide,
    file: Seq<u8>,
    page: u32,
    content_type: Seq<char>,
    ext: Seq<char>,
    body: Seq<u8>,
) -> bool {
    &&& s.name@ == name_for(body, ext)
    &&& s.alt@ == lossy_text(stem_of(file))
    &&& s.order.0@ == lossy_text(file)
    &&& s.order.1 == page
    &&& s.content_type@ == content_type
    &&& s.body@ == body
}

fn slide(file: &Vec<u8>, page: u32, content_type: &'static str, ext: &str, body: Vec<u8>) -> (r:
    Slide)
    ensures
        is_slide_of(r, file@, page, content_type@, ext@, body@),
{
    let mut name = String::new();
    push_hex_padded(&mut name, fnv1a(body.as_slice()) as u128, 16);
    assert(name@ =~= hex_padded(fnv1a_of(body@) as nat, 16));
    name.append(".");
    name.append(ext);
    let alt = match find_dot(file) {
        Some(dot) => if dot > 0 {
            lossy(vstd::slice::slice_subrange(file.as_slice(), 0, dot))
        } else {
            lossy(file.as_slice())
        },
        None => lossy(file.as_slice()),
    };
    proof {
        if last_dot(file@) > 0 {
            assert(file@.subrange(0, last_dot(file@)) =~= file@.take(last_dot(file@)));
        }
    }
    Slide { name, alt, order: (lossy(file.as_slice()), page), content_type, body }
}

/// What the browser is told that the slides of a file are.
pub open spec fn content_type_of(kind: Kind) -> Seq<char> {
    match kind {
        Kind::Pdf => "image/png"@,
        Kind::Image(content_type) => content_type@,
    }
}

/// The extension of the slides of a file: pages of a PDF are rendered to PNG,
/// images keep theirs.
pub open spec fn slide_extension(name: Seq<u8>, kind: Kind) -> Seq<char> {
    match kind {
        Kind::Pdf => "png"@,
        Kind::Image(_) => match small_extension(name) {
            Some(ext) => ext,
            None => Seq::empty(),
        },
    }
}

/// The slides of a file. `parts` are its images in order: the file itself, or
/// each page of a PDF, rendered. If one of them could not be had the file has
/// no slides, and the first such error says why.
pub fn load(name: &Vec<u8>, kind: Kind, parts: Vec<Result<Vec<u8>, String>>) -> (r: Result<
    Vec<Arc<Slide>>,
    String,
>)
    requires
        parts@.len() <= u32::MAX,
    ensures
        match r {
            Ok(slides) => {
                &&& slides@.len() == parts@.len()
                &&& forall|i: int|
                    0 <= i < parts@.len() ==> (#[trigger] parts@[i]) is Ok && is_slide_of(
                        *slides@[i],
                        name@,
                        (i + 1) as u32,
                        content_type_of(kind),
                        slide_extension(name@, kind),
                        parts@[i]->Ok_0@,
                    )
            },
            Err(e) => exists|i: int|
                {
                    &&& 0 <= i < parts@.len()
                    &&& (#[trigger] parts@[i]) is Err
                    &&& parts@[i]->Err_0@ == e@
                    &&& forall|k: int| 0 <= k < i ==> (#[trigger] parts@[k]) is Ok
                },
        },
{
    let content_type = match &kind {
        Kind::Pdf => "image/png",
        Kind::Image(content_type) => *content_type,
    };
    let ext = match &kind {
        Kind::Pdf => "png".to_owned(),
        Kind::Image(_) => match extension(name) {
            Some(ext) => ext,
            None => String::new(),
        },
    };
    let mut slides: Vec<Arc<Slide>> = Vec::new();
    let mut i: usize = 0;
    while i < parts.len()
        invariant
            i <= parts@.len() <= u32::MAX,
            slides@.len() == i,
            content_type@ == content_type_of(kind),
            ext@ == slide_extension(name@, kind),
            forall|k: int|
                0 <= k < i ==> (#[trigger] parts@[k]) is Ok && is_slide_of(
                    *slides@[k],
                    name@,
                    (k + 1) as u32,
                    content_type_of(kind),
                    slide_extension(name@, kind),
                    parts@[k]->Ok_0@,
                ),
        decreases parts@.len() - i,
    {
        match &parts[i] {
            Ok(body) => {
                let page: u32 = i as u32 + 1;
                slides.push(
                    Arc::new(slide(name, page, content_type, ext.as_str(), copy_bytes(body))),
                );
            },
            Err(e) => {
                return Err(e.clone());
            },
        }
        i += 1;
    }
    Ok(slides)
}

// Reading what poppler says

/// What follows `Pages:` on the first line that begins so.
pub open spec fn pages_line(text: Seq<char>) -> Option<Seq<char>>
    decreases text.len(),
{
    let end = until(text, '\n') as int;
    let line = text.take(end);
    if line.len() >= 6 && line.take(6) == "Pages:"@ {
        Some(line.skip(6))
    } else if end + 1 < text.len() {
        pages_line(text.skip(end + 1))
    } else {
        None
    }
}

/// The number of pages that `pdfinfo` reports.
pub open spec fn page_count(text: Seq<char>) -> Option<nat> {
    match pages_line(text) {
        Some(n) => unsigned(trim(n), u32::MAX as nat),
        None => None,
    }
}

/// The number of pages of a PDF, from what `pdfinfo` printed.
pub fn pdf_pages(info: &Vec<u8>) -> (r: Result<u32, String>)
    ensures
        match page_count(lossy_text(info@)) {
            Some(n) => r is Ok && r->Ok_0 == n,
            None => r is Err && r->Err_0@ == "pdfinfo reports no page count"@,
        },
{
    pages_in(lossy(info.as_slice()).as_str())
}

/// The number of pages in the text that `pdfinfo` printed.
pub fn pages_in(text: &str) -> (r: Result<u32, String>)
    ensures
        match page_count(text@) {
            Some(n) => r is Ok && r->Ok_0 == n,
            None => r is Err && r->Err_0@ == "pdfinfo reports no page count"@,
        },
{
    let chars = chars_of(text);
    let n: usize = chars.len();
    let prefix = chars_of("Pages:");
    proof {
        reveal_strlit("Pages:");
        assert(chars@.skip(0) =~= text@);
    }
    let mut from: usize = 0;
    while from <= n
        invariant
            n == chars@.len(),
            from <= n,
            chars@ == text@,
            prefix@ == "Pages:"@,
            prefix@.len() == 6,
            pages_line(text@) == pages_line(chars@.skip(from as int)),
        ensures
            pages_line(text@) is None,
        decreases n - from,
    {
        let end = find_char(&chars, from, n, '\n');
        let ghost rest = chars@.skip(from as int);
        proof {
            assert(chars@.subrange(from as int, n as int) =~= rest);
            if end - from >= 6 {
                assert(rest.take(end - from).take(6) =~= chars@.subrange(from as int, from + 6));
                assert(rest.take(end - from).skip(6) =~= chars@.subrange(from + 6, end as int));
            }
        }
        if end - from >= 6 && same_chars(&chars, from, from + 6, &prefix) {
            let (a, b) = trim_range(&chars, from + 6, end);
            return match read_unsigned(&chars, a, b, u32::MAX as u64) {
                Some(count) => Ok(count as u32),
                None => Err("pdfinfo reports no page count".to_owned()),
            };
        }
        if end >= n || end + 1 >= n {
            break;
        }
        assert(rest.skip(end - from + 1) =~= chars@.skip(end + 1));
        from = end + 1;
    }
    Err("pdfinfo reports no page count".to_owned())
}

/// What a program gave: its output, or why it failed.
pub open spec fn output_of(
    program: Seq<char>,
    status: Seq<char>,
    success: bool,
    stdout: Seq<u8>,
    stderr: Seq<u8>,
) -> Result<Seq<u8>, Seq<char>> {
    if success {
        Ok(stdout)
    } else {
        Err(program + " failed ("@ + status + "): "@ + trim(lossy_text(stderr)))
    }
}

/// The output of a program that ran, or what it said when it failed.
pub fn output(
    program: &str,
    status: &str,
    success: bool,
    stdout: Vec<u8>,
    stderr: &Vec<u8>,
) -> (r: Result<Vec<u8>, String>)
    ensures
        match output_of(program@, status@, success, stdout@, stderr@) {
            Ok(out) => r is Ok && r->Ok_0@ == out,
            Err(e) => r is Err && r->Err_0@ == e,
        },
{
    if success {
        return Ok(stdout);
    }
    let chars = chars_of(lossy(stderr.as_slice()).as_str());
    let (a, b) = trim_range(&chars, 0, chars.len());
    assert(chars@.subrange(0, chars@.len() as int) =~= chars@);
    let mut message = program.to_owned();
    message.append(" failed (");
    message.append(status);
    message.append("): ");
    message.append(string_of(&chars, a, b).as_str());
    Err(message)
}

/// Why a program could not be run.
pub fn run_error(program: &str, error: &str) -> (r: String)
    ensures
        r@ == "running "@ + program@ + ": "@ + error@,
{
    let mut message = "running ".to_owned();
    message.append(program);
    message.append(": ");
    message.append(error);
    message
}

/// What `pdftoppm` is asked for: one page as PNG, in the size to show.
pub fn render_args(page: u32) -> (r: Vec<String>)
    ensures
        r@.map_values(|s: String| s@) == seq![
            "-png"@,
            "-scale-to"@,
            RENDER_PIXELS@,
            "-singlefile"@,
            "-f"@,
            decimal(page as nat),
            "-l"@,
            decimal(page as nat),
        ],
{
    let r = vec![
        "-png".to_owned(),
        "-scale-to".to_owned(),
        RENDER_PIXELS.to_owned(),
        "-singlefile".to_owned(),
        "-f".to_owned(),
        decimal_string(page as u64),
        "-l".to_owned(),
        decimal_string(page as u64),
    ];
    assert(r@.map_values(|s: String| s@) =~= seq![
        "-png"@,
        "-scale-to"@,
        RENDER_PIXELS@,
        "-singlefile"@,
        "-f"@,
        decimal(page as nat),
        "-l"@,
        decimal(page as nat),
    ]);
    r
}

// The library

/// Modification time, in nanoseconds from the Unix epoch where the file system
/// has one, and size: a file whose stamp is unchanged is not read or rendered
/// again.
#[derive(Debug, Clone, Copy, PartialEq, Eq)]
pub struct Stamp {
    pub modified: Option<i128>,
    pub size: u64,
}

impl Stamp {
    fn same(self, other: Stamp) -> (r: bool)
        ensures
            r == (self == other),
    {
        let modified = match (self.modified, other.modified) {
            (Some(a), Some(b)) => a == b,
            (None, None) => true,
            _ => false,
        };
        modified && self.size == other.size
    }
}

/// A file of the last scan.
struct Known {
    name: Vec<u8>,
    stamp: Stamp,
    slides: Vec<Arc<Slide>>,
}

pub struct Library {
    dir: String,
    /// The last scan. Files that failed to load are kept with no slides, so
    /// their error is reported once rather than on every scan.
    files: Vec<Known>,
    /// Why the directory couldn't be read last time, to report it once.
    error: Option<String>,
}

/// What a library remembers: of each file of the last scan, its stamp and its
/// slides.
#[verifier::ext_equal]
pub struct LibraryModel {
    pub dir: Seq<char>,
    pub files: Map<Seq<u8>, (Stamp, Seq<Arc<Slide>>)>,
    pub error: Option<Seq<char>>,
}

spec fn known_files(files: Seq<Known>) -> Map<Seq<u8>, (Stamp, Seq<Arc<Slide>>)>
    decreases files.len(),
{
    if files.len() == 0 {
        Map::empty()
    } else {
        let last = files.last();
        known_files(files.drop_last()).insert(last.name@, (last.stamp, last.slides@))
    }
}

/// A message about a place in the slides directory.
pub open spec fn slides_error(place: Seq<char>, error: Seq<char>) -> Seq<char> {
    "slides: "@ + place + ": "@ + error
}

/// The message for a file, or the directory, that could not be read.
pub fn report(place: &str, error: &str) -> (r: String)
    ensures
        r@ == slides_error(place@, error@),
{
    let mut message = "slides: ".to_owned();
    message.append(place);
    message.append(": ");
    message.append(error);
    message
}

/// Whether a file may be a slide. Dotfiles, among them rsync's temporary
/// copies of files on their way, are none.
pub open spec fn is_wanted(name: Seq<u8>) -> bool {
    (name.len() == 0 || name[0] != DOT) && kind_of(name) is Some
}

/// The names to look at, in order.
pub open spec fn wanted(names: Seq<Seq<u8>>) -> Seq<Seq<u8>> {
    let chosen = names.filter(|n: Seq<u8>| is_wanted(n));
    order_of(chosen.map_values(|n: Seq<u8>| name_key(n))).map_values(|i: int| chosen[i])
}

pub open spec fn byte_seqs(names: Seq<Vec<u8>>) -> Seq<Seq<u8>> {
    names.map_values(|n: Vec<u8>| n@)
}

/// What a scan begins with, given the directory's list of names or why there
/// is none: a directory that cannot be read has no slides.
pub open spec fn begun(m: LibraryModel, names: Result<Seq<Seq<u8>>, Seq<char>>) -> LibraryModel {
    match names {
        Ok(_) => LibraryModel { error: None, ..m },
        Err(e) => LibraryModel {
            files: Map::empty(),
            error: Some(slides_error(m.dir, e)),
            ..m
        },
    }
}

/// What there is to say about the directory: an error that is new.
pub open spec fn begin_report(m: LibraryModel, names: Result<Seq<Seq<u8>>, Seq<char>>) -> Option<
    Seq<char>,
> {
    match names {
        Ok(_) => None,
        Err(e) => if m.error == Some(slides_error(m.dir, e)) {
            None
        } else {
            Some(slides_error(m.dir, e))
        },
    }
}

/// Whether a file is as it was at the last scan.
pub open spec fn is_unchanged(m: LibraryModel, name: Seq<u8>, stamp: Stamp) -> bool {
    m.files.contains_key(name) && m.files[name].0 == stamp
}

/// What the file system says of an entry of the directory.
#[derive(Debug, Clone, Copy)]
pub struct Meta {
    pub is_file: bool,
    pub stamp: Stamp,
}

/// An entry of the directory that was looked at: what the file system says of
/// it, if anything, and what loading it gave, if it was loaded.
pub struct Loaded {
    pub name: Vec<u8>,
    /// The path to show.
    pub path: String,
    pub meta: Option<Meta>,
    pub slides: Option<Result<Vec<Arc<Slide>>, String>>,
}

/// Whether an entry is a file. One of which nothing can be said is skipped.
pub open spec fn is_file(meta: Option<Meta>) -> bool {
    meta is Some && meta->0.is_file
}

/// Whether an entry has to be loaded: a file that is new or has changed.
pub open spec fn has_to_load(m: LibraryModel, name: Seq<u8>, meta: Option<Meta>) -> bool {
    is_file(meta) && !is_unchanged(m, name, meta->0.stamp)
}

/// The slides of a file of this scan: those of the last one where it is
/// unchanged. A file that failed to load has none.
pub open spec fn slides_of(m: LibraryModel, file: Loaded) -> Seq<Arc<Slide>> {
    if !has_to_load(m, file.name@, file.meta) {
        m.files[file.name@].1
    } else {
        match file.slides {
            Some(Ok(slides)) => slides@,
            _ => Seq::empty(),
        }
    }
}

/// The slides of the files, one file after the other.
pub open spec fn all_slides(m: LibraryModel, files: Seq<Loaded>) -> Seq<Arc<Slide>>
    decreases files.len(),
{
    if files.len() == 0 {
        Seq::empty()
    } else if is_file(files.last().meta) {
        all_slides(m, files.drop_last()) + slides_of(m, files.last())
    } else {
        all_slides(m, files.drop_last())
    }
}

/// What is remembered of the files.
pub open spec fn remembered(m: LibraryModel, files: Seq<Loaded>) -> Map<
    Seq<u8>,
    (Stamp, Seq<Arc<Slide>>),
>
    decreases files.len(),
{
    if files.len() == 0 {
        Map::empty()
    } else {
        let last = files.last();
        let before = remembered(m, files.drop_last());
        if is_file(last.meta) {
            before.insert(last.name@, (last.meta->0.stamp, slides_of(m, last)))
        } else {
            before
        }
    }
}

/// What there is to say of the files: why those that had to be loaded could
/// not be.
pub open spec fn load_errors(m: LibraryModel, files: Seq<Loaded>) -> Seq<Seq<char>>
    decreases files.len(),
{
    if files.len() == 0 {
        Seq::empty()
    } else {
        let last = files.last();
        let before = load_errors(m, files.drop_last());
        match last.slides {
            Some(Err(e)) => if has_to_load(m, last.name@, last.meta) {
                before.push(slides_error(last.path@, e@))
            } else {
                before
            },
            _ => before,
        }
    }
}

/// Slides by file and page.
pub open spec fn in_order(slides: Seq<Arc<Slide>>) -> Seq<Arc<Slide>> {
    order_of(slides.map_values(|s: Arc<Slide>| s.key())).map_values(|i: int| slides[i])
}

fn same_bytes(a: &Vec<u8>, b: &Vec<u8>) -> (r: bool)
    ensures
        r == (a@ == b@),
{
    if a.len() != b.len() {
        return false;
    }
    let mut i: usize = 0;
    while i < a.len()
        invariant
            i <= a@.len() == b@.len(),
            forall|k: int| 0 <= k < i ==> a@[k] == b@[k],
        decreases a@.len() - i,
    {
        if a[i] != b[i] {
            return false;
        }
        i += 1;
    }
    assert(a@ =~= b@);
    true
}

/// The same slides, held once more.
fn share(slides: &Vec<Arc<Slide>>) -> (r: Vec<Arc<Slide>>)
    ensures
        r@ == slides@,
{
    let mut r: Vec<Arc<Slide>> = Vec::new();
    let mut i: usize = 0;
    while i < slides.len()
        invariant
            i <= slides@.len(),
            r@ == slides@.take(i as int),
        decreases slides@.len() - i,
    {
        r.push(slides[i].clone());
        i += 1;
        assert(r@ =~= slides@.take(i as int));
    }
    assert(slides@.take(i as int) =~= slides@);
    r
}

fn copy_bytes(bytes: &Vec<u8>) -> (r: Vec<u8>)
    ensures
        r@ == bytes@,
{
    let r = bytes.clone();
    assert(r@ =~= bytes@);
    r
}

/// The names that may be slides, in order.
fn choose_names(names: &Vec<Vec<u8>>) -> (r: Vec<Vec<u8>>)
    ensures
        byte_seqs(r@) == wanted(byte_seqs(names@)),
{
    let ghost all = byte_seqs(names@);
    let ghost is_one = |n: Seq<u8>| is_wanted(n);
    let mut chosen: Vec<Vec<u8>> = Vec::new();
    let mut ranks: Vec<Rank> = Vec::new();
    let mut i: usize = 0;
    proof {
        reveal(Seq::filter);
        assert(all.take(0).filter(is_one) =~= Seq::empty());
        assert(byte_seqs(chosen@) =~= Seq::empty());
    }
    while i < names.len()
        invariant
            i <= names@.len(),
            all == byte_seqs(names@),
            is_one == (|n: Seq<u8>| is_wanted(n)),
            byte_seqs(chosen@) == all.take(i as int).filter(is_one),
            ranks@.len() == chosen@.len(),
            forall|k: int|
                0 <= k < ranks@.len() ==> (#[trigger] ranks@[k]).key() == name_key(chosen@[k]@),
        decreases names@.len() - i,
    {
        proof {
            reveal(Seq::filter);
            assert(all.take(i + 1).drop_last() =~= all.take(i as int));
            assert(all.take(i + 1).last() == names@[i as int]@);
        }
        let name = &names[i];
        if (name.len() == 0 || name[0] != DOT) && kind(name).is_some() {
            let ghost before = chosen@;
            ranks.push(name_rank(name));
            chosen.push(copy_bytes(name));
            assert(byte_seqs(chosen@) =~= byte_seqs(before).push(name@));
        }
        i += 1;
    }
    assert(all.take(i as int) =~= all);
    let ghost picked = all.filter(is_one);
    let ghost keys = picked.map_values(|n: Seq<u8>| name_key(n));
    proof {
        assert(keys_of(ranks@) =~= keys) by {
            assert forall|k: int| 0 <= k < ranks@.len() implies keys_of(ranks@)[k] == keys[k] by {
                assert(picked[k] == byte_seqs(chosen@)[k]);
            }
        }
        order_is_sorted(keys);
    }
    let places = order(&ranks);
    assert(places@.map_values(|i: usize| i as int).len() == places@.len());
    let mut r: Vec<Vec<u8>> = Vec::new();
    let mut k: usize = 0;
    while k < places.len()
        invariant
            k <= places@.len(),
            r@.len() == k,
            forall|j: int| 0 <= j < places@.len() ==> (#[trigger] places@[j]) < chosen@.len(),
            forall|j: int| 0 <= j < k ==> (#[trigger] r@[j])@ == chosen@[places@[j] as int]@,
        decreases places@.len() - k,
    {
        r.push(copy_bytes(&chosen[places[k]]));
        k += 1;
    }
    assert(byte_seqs(r@) =~= wanted(all)) by {
        assert forall|j: int| 0 <= j < r@.len() implies byte_seqs(r@)[j] == wanted(all)[j] by {
            assert(places@.map_values(|i: usize| i as int)[j] == order_of(keys)[j]);
            assert(picked[places@[j] as int] == byte_seqs(chosen@)[places@[j] as int]);
        }
    }
    r
}

fn sorted(slides: &Vec<Arc<Slide>>) -> (r: Vec<Arc<Slide>>)
    ensures
        r@ == in_order(slides@),
{
    let ghost keys = slides@.map_values(|s: Arc<Slide>| s.key());
    let mut ranks: Vec<Rank> = Vec::new();
    let mut i: usize = 0;
    while i < slides.len()
        invariant
            i <= slides@.len(),
            ranks@.len() == i,
            forall|k: int| 0 <= k < i ==> (#[trigger] ranks@[k]).key() == slides@[k].key(),
        decreases slides@.len() - i,
    {
        ranks.push(
            Rank {
                first: 0,
                text: chars_of(slides[i].order.0.as_str()),
                second: slides[i].order.1 as u64,
            },
        );
        i += 1;
    }
    proof {
        assert(keys_of(ranks@) =~= keys);
        order_is_sorted(keys);
    }
    let places = order(&ranks);
    assert(places@.map_values(|i: usize| i as int).len() == places@.len());
    let mut r: Vec<Arc<Slide>> = Vec::new();
    let mut k: usize = 0;
    while k < places.len()
        invariant
            k <= places@.len(),
            r@.len() == k,
            forall|j: int| 0 <= j < places@.len() ==> (#[trigger] places@[j]) < slides@.len(),
            forall|j: int| 0 <= j < k ==> #[trigger] r@[j] == slides@[places@[j] as int],
        decreases places@.len() - k,
    {
        r.push(slides[places[k]].clone());
        k += 1;
    }
    assert(r@ =~= in_order(slides@)) by {
        assert forall|j: int| 0 <= j < r@.len() implies r@[j] == in_order(slides@)[j] by {
            assert(places@.map_values(|i: usize| i as int)[j] == order_of(keys)[j]);
        }
    }
    r
}

// The rotation

/// The place of the first slide that comes after `key`, or the end.
pub open spec fn first_after(slides: Seq<Arc<Slide>>, key: Key) -> nat
    decreases slides.len(),
{
    if slides.len() == 0 || key_lt(key, slides[0].key()) {
        0
    } else {
        1 + first_after(slides.skip(1), key)
    }
}

/// The slide to show after `current`: the first one that comes after it, or
/// else the first of all.
pub open spec fn following(slides: Seq<Arc<Slide>>, current: Option<Key>) -> Option<Arc<Slide>> {
    if slides.len() == 0 {
        None
    } else if current is Some && first_after(slides, current->0) < slides.len() {
        Some(slides[first_after(slides, current->0) as int])
    } else {
        Some(slides[0])
    }
}

pub open spec fn key_of(slide: Option<&Slide>) -> Option<Key> {
    match slide {
        Some(s) => Some(s.key()),
        None => None,
    }
}

fn comes_after(slide: &Slide, current: &Slide) -> (r: bool)
    ensures
        r == key_lt(current.key(), slide.key()),
{
    let a = chars_of(current.order.0.as_str());
    let b = chars_of(slide.order.0.as_str());
    if same_chars(&a, 0, a.len(), &b) {
        assert(a@.subrange(0, a@.len() as int) =~= a@);
        current.order.1 < slide.order.1
    } else {
        assert(a@.subrange(0, a@.len() as int) =~= a@);
        lex_before(&a, &b)
    }
}

/// The slide to show after `current`: the next one in order, so slides added
/// or removed meanwhile don't restart the rotation.
pub fn next(slides: &[Arc<Slide>], current: Option<&Slide>) -> (r: Option<Arc<Slide>>)
    ensures
        r == following(slides@, key_of(current)),
{
    if slides.len() == 0 {
        return None;
    }
    if let Some(c) = current {
        let mut i: usize = 0;
        assert(slides@.skip(0) =~= slides@);
        while i < slides.len()
            invariant
                i <= slides@.len(),
                first_after(slides@, c.key()) == i + first_after(slides@.skip(i as int), c.key()),
                slides@.len() > 0,
                current == Some(c),
            decreases slides@.len() - i,
        {
            assert(slides@.skip(i as int).skip(1) =~= slides@.skip(i + 1));
            if comes_after(&slides[i], c) {
                return Some(slides[i].clone());
            }
            i += 1;
        }
    }
    Some(slides[0].clone())
}

impl Library {
    pub closed spec fn model(&self) -> LibraryModel {
        LibraryModel {
            dir: self.dir@,
            files: known_files(self.files@),
            error: match self.error {
                Some(e) => Some(e@),
                None => None,
            },
        }
    }

    pub fn new(dir: String) -> (r: Self)
        ensures
            r.model() == (LibraryModel { dir: dir@, files: Map::empty(), error: None }),
    {
        Library { dir, files: Vec::new(), error: None }
    }

    /// A scan begins: the names to look at, in order, and what to report.
    /// `names` are those of the directory, or why it could not be read.
    pub fn begin(&mut self, names: Result<Vec<Vec<u8>>, String>) -> (r: (
        Vec<Vec<u8>>,
        Option<String>,
    ))
        ensures
            final(self).model() == begun(
                old(self).model(),
                match names {
                    Ok(n) => Ok(byte_seqs(n@)),
                    Err(e) => Err(e@),
                },
            ),
            byte_seqs(r.0@) == match names {
                Ok(n) => wanted(byte_seqs(n@)),
                Err(_) => Seq::empty(),
            },
            match r.1 {
                Some(message) => Some(message@),
                None => None,
            } == begin_report(
                old(self).model(),
                match names {
                    Ok(n) => Ok(byte_seqs(n@)),
                    Err(e) => Err(e@),
                },
            ),
    {
        match names {
            Ok(n) => {
                self.error = None;
                (choose_names(&n), None)
            },
            Err(e) => {
                let message = report(self.dir.as_str(), e.as_str());
                let is_news = match &self.error {
                    Some(last) => !same(last.as_str(), message.as_str()),
                    None => true,
                };
                self.files = Vec::new();
                self.error = Some(message.clone());
                let nothing: Vec<Vec<u8>> = Vec::new();
                assert(byte_seqs(nothing@) =~= Seq::empty());
                if is_news {
                    (nothing, Some(message))
                } else {
                    (nothing, None)
                }
            },
        }
    }

    /// The slides of a file of the last scan, and its stamp then.
    fn find(&self, name: &Vec<u8>) -> (r: Option<usize>)
        ensures
            match r {
                Some(i) => {
                    &&& i < self.files@.len()
                    &&& self.model().files.contains_key(name@)
                    &&& self.model().files[name@] == (
                        self.files@[i as int].stamp,
                        self.files@[i as int].slides@,
                    )
                },
                None => !self.model().files.contains_key(name@),
            },
    {
        let mut n: usize = self.files.len();
        assert(self.files@.take(n as int) =~= self.files@);
        while n > 0
            invariant
                n <= self.files@.len(),
                known_files(self.files@).contains_key(name@) == known_files(
                    self.files@.take(n as int),
                ).contains_key(name@),
                known_files(self.files@).contains_key(name@) ==> known_files(
                    self.files@,
                )[name@] == known_files(self.files@.take(n as int))[name@],
            decreases n,
        {
            assert(self.files@.take(n as int).drop_last() =~= self.files@.take(n - 1));
            if same_bytes(&self.files[n - 1].name, name) {
                return Some(n - 1);
            }
            n -= 1;
        }
        None
    }

    /// Whether a file is as it was at the last scan, and need not be loaded.
    pub fn is_current(&self, name: &Vec<u8>, stamp: Stamp) -> (r: bool)
        ensures
            r == is_unchanged(self.model(), name@, stamp),
    {
        match self.find(name) {
            Some(i) => self.files[i].stamp.same(stamp),
            None => false,
        }
    }

    /// Whether an entry has to be loaded, given what the file system says of
    /// it.
    pub fn must_load(&self, name: &Vec<u8>, meta: Option<Meta>) -> (r: bool)
        ensures
            r == has_to_load(self.model(), name@, meta),
    {
        match meta {
            Some(meta) => meta.is_file && !self.is_current(name, meta.stamp),
            None => false,
        }
    }

    /// The slides of a file, and why it could not be loaded.
    fn take(&self, file: &Loaded) -> (r: (Vec<Arc<Slide>>, Option<String>))
        requires
            is_file(file.meta),
        ensures
            r.0@ == slides_of(self.model(), *file),
            match r.1 {
                Some(e) => {
                    &&& has_to_load(self.model(), file.name@, file.meta)
                    &&& file.slides matches Some(Err(why)) && e@ == slides_error(file.path@, why@)
                },
                None => {
                    ||| !has_to_load(self.model(), file.name@, file.meta)
                    ||| !(file.slides matches Some(Err(_)))
                },
            },
    {
        if self.must_load(&file.name, file.meta) {
            match &file.slides {
                Some(Ok(slides)) => (share(slides), None),
                Some(Err(e)) => (Vec::new(), Some(report(file.path.as_str(), e.as_str()))),
                None => (Vec::new(), None),
            }
        } else {
            match self.find(&file.name) {
                Some(k) => (share(&self.files[k].slides), None),
                None => (Vec::new(), None),
            }
        }
    }

    /// A scan ends: every slide in the directory now, in order, and what there
    /// is to report. `loaded` are the entries that were looked at; those that
    /// `must_load` names bring what loading them gave.
    pub fn scan(&mut self, loaded: Vec<Loaded>) -> (r: (Vec<Arc<Slide>>, Vec<String>))
        ensures
            final(self).model() == (LibraryModel {
                files: remembered(old(self).model(), loaded@),
                ..old(self).model()
            }),
            r.0@ == in_order(all_slides(old(self).model(), loaded@)),
            texts(r.1@) == load_errors(old(self).model(), loaded@),
    {
        let ghost before = self.model();
        let mut files: Vec<Known> = Vec::new();
        let mut all: Vec<Arc<Slide>> = Vec::new();
        let mut errors: Vec<String> = Vec::new();
        let mut i: usize = 0;
        proof {
            assert(loaded@.take(0) =~= Seq::empty());
            assert(texts(errors@) =~= Seq::empty());
        }
        while i < loaded.len()
            invariant
                i <= loaded@.len(),
                self.model() == before,
                before == old(self).model(),
                known_files(files@) == remembered(before, loaded@.take(i as int)),
                all@ == all_slides(before, loaded@.take(i as int)),
                texts(errors@) == load_errors(before, loaded@.take(i as int)),
            decreases loaded@.len() - i,
        {
            let file = &loaded[i];
            proof {
                assert(loaded@.take(i + 1).drop_last() =~= loaded@.take(i as int));
                assert(loaded@.take(i + 1).last() == *file);
            }
            if let Some(meta) = file.meta {
                if meta.is_file {
                    let (slides, error) = self.take(file);
                    let ghost list = files@;
                    let ghost sofar = all@;
                    let ghost said = errors@;
                    let mut more = share(&slides);
                    all.append(&mut more);
                    files.push(Known { name: copy_bytes(&file.name), stamp: meta.stamp, slides });
                    if let Some(e) = error {
                        errors.push(e);
                        assert(texts(errors@) =~= texts(said).push(e@));
                    }
                    proof {
                        assert(files@.drop_last() =~= list);
                        assert(all@ =~= sofar + slides_of(before, *file));
                    }
                }
            }
            i += 1;
        }
        assert(loaded@.take(i as int) =~= loaded@);
        self.files = files;
        (sorted(&all), errors)
    }
}

// What holds of the rotation

/// Slides in order: none comes before an earlier one.
pub open spec fn is_sorted(slides: Seq<Arc<Slide>>) -> bool {
    forall|i: int, j: int|
        0 <= i < j < slides.len() ==> !key_lt(
            (#[trigger] slides[j]).key(),
            (#[trigger] slides[i]).key(),
        )
}

/// A scan gives every slide of every file, in order.
pub proof fn scans_are_in_order(slides: Seq<Arc<Slide>>)
    ensures
        is_sorted(in_order(slides)),
        in_order(slides).len() == slides.len(),
        forall|s: Arc<Slide>| slides.contains(s) <==> #[trigger] in_order(slides).contains(s),
{
    let keys = slides.map_values(|s: Arc<Slide>| s.key());
    order_is_sorted(keys);
    let places = order_of(keys);
    let sorted = in_order(slides);
    assert forall|i: int, j: int| 0 <= i < j < sorted.len() implies !key_lt(
        (#[trigger] sorted[j]).key(),
        (#[trigger] sorted[i]).key(),
    ) by {
        assert(listed(keys, places[i], places[j]));
        key_lt_is_total(keys[places[i]], keys[places[j]]);
    }
    assert forall|s: Arc<Slide>| slides.contains(s) <==> #[trigger] sorted.contains(s) by {
        if slides.contains(s) {
            let p = choose|p: int| 0 <= p < slides.len() && slides[p] == s;
            assert(places.contains(p));
            let i = choose|i: int| 0 <= i < places.len() && places[i] == p;
            assert(sorted[i] == s);
        }
        if sorted.contains(s) {
            let i = choose|i: int| 0 <= i < sorted.len() && sorted[i] == s;
            assert(slides[places[i]] == s);
        }
    }
}

proof fn first_after_is_first(slides: Seq<Arc<Slide>>, key: Key)
    ensures
        first_after(slides, key) <= slides.len(),
        forall|i: int|
            0 <= i < first_after(slides, key) ==> !key_lt(key, (#[trigger] slides[i]).key()),
        first_after(slides, key) < slides.len() ==> key_lt(
            key,
            slides[first_after(slides, key) as int].key(),
        ),
    decreases slides.len(),
{
    if slides.len() > 0 && !key_lt(key, slides[0].key()) {
        first_after_is_first(slides.skip(1), key);
        assert forall|i: int| 0 <= i < first_after(slides, key) implies !key_lt(
            key,
            (#[trigger] slides[i]).key(),
        ) by {
            if i > 0 {
                assert(slides[i] == slides.skip(1)[i - 1]);
            }
        }
    }
}

/// Whatever is added or removed meanwhile, the slide shown after another is
/// the next one in order: it comes after it, and nothing comes between. Only
/// where nothing comes after it, the rotation begins again.
pub proof fn the_rotation_goes_on(slides: Seq<Arc<Slide>>, current: Key)
    requires
        is_sorted(slides),
        slides.len() > 0,
    ensures
        ({
            let r = following(slides, Some(current));
            &&& r is Some
            &&& if exists|i: int|
                0 <= i < slides.len() && key_lt(current, (#[trigger] slides[i]).key()) {
                &&& key_lt(current, r->0.key())
                &&& forall|i: int|
                    0 <= i < slides.len() && key_lt(current, (#[trigger] slides[i]).key())
                        ==> !key_lt(slides[i].key(), r->0.key())
            } else {
                r->0 == slides[0]
            }
        }),
{
    first_after_is_first(slides, current);
    let k = first_after(slides, current) as int;
    if k < slides.len() {
        assert forall|i: int|
            0 <= i < slides.len() && key_lt(current, (#[trigger] slides[i]).key()) implies !key_lt(
            slides[i].key(),
            slides[k].key(),
        ) by {
            if i == k {
                key_lt_is_total(slides[k].key(), slides[k].key());
            }
        }
    }
}

/// Without changes every slide is followed by the next, and the last one by
/// the first: all have their turn.
pub proof fn all_slides_have_their_turn(slides: Seq<Arc<Slide>>, i: int)
    requires
        forall|a: int, b: int|
            0 <= a < b < slides.len() ==> key_lt(
                (#[trigger] slides[a]).key(),
                (#[trigger] slides[b]).key(),
            ),
        0 <= i < slides.len(),
    ensures
        following(slides, Some(slides[i].key())) == Some(
            slides[if i + 1 < slides.len() {
                i + 1
            } else {
                0
            }],
        ),
{
    let key = slides[i].key();
    first_after_is_first(slides, key);
    let k = first_after(slides, key) as int;
    assert forall|a: int| 0 <= a <= i implies !key_lt(key, (#[trigger] slides[a]).key()) by {
        key_lt_is_total(slides[a].key(), key);
    }
    if i + 1 < slides.len() {
        assert(key_lt(key, slides[i + 1].key()));
    }
}

/// An unreadable directory is reported once.
pub proof fn an_error_is_reported_once(m: LibraryModel, error: Seq<char>)
    ensures
        begin_report(begun(m, Err(error)), Err(error)) is None,
{
}

/// After a scan its files are current, until their stamp changes, and one that
/// could not be loaded is not reported again.
pub proof fn scanned_files_are_current(m: LibraryModel, files: Seq<Loaded>, i: int)
    requires
        0 <= i < files.len(),
        is_file(files[i].meta),
        forall|k: int| i < k < files.len() ==> (#[trigger] files[k]).name@ != files[i].name@,
    ensures
        ({
            let after = LibraryModel { files: remembered(m, files), ..m };
            &&& forall|stamp: Stamp| #[trigger]
                is_unchanged(after, files[i].name@, stamp) == (stamp == files[i].meta->0.stamp)
            &&& remembered(m, files)[files[i].name@] == (
                files[i].meta->0.stamp,
                slides_of(m, files[i]),
            )
            &&& load_errors(after, seq![files[i]]).len() == 0
        }),
    decreases files.len(),
{
    let after = LibraryModel { files: remembered(m, files), ..m };
    if i < files.len() - 1 {
        let rest = files.drop_last();
        assert forall|k: int| i < k < rest.len() implies (#[trigger] rest[k]).name@
            != rest[i].name@ by {
            assert(files[k].name@ != files[i].name@);
        }
        scanned_files_are_current(m, rest, i);
        assert(files[files.len() - 1].name@ != files[i].name@);
        assert(is_unchanged(
            LibraryModel { files: remembered(m, rest), ..m },
            files[i].name@,
            files[i].meta->0.stamp,
        ));
    }
    assert(is_unchanged(after, files[i].name@, files[i].meta->0.stamp));
    let one = seq![files[i]];
    assert(one.drop_last() =~= Seq::empty());
    assert(one.last() == files[i]);
    assert(load_errors(after, one.drop_last()).len() == 0);
}

// What a scan gives

/// What the file at a place of a scan brings: what was remembered of it where
/// its stamp is the same, or else what loading it gave.
pub proof fn a_file_brings_its_slides(m: LibraryModel, files: Seq<Loaded>, i: int)
    requires
        0 <= i < files.len(),
        files[i].meta is Some,
        files[i].meta->0.is_file,
        forall|k: int| i < k < files.len() ==> (#[trigger] files[k]).name@ != files[i].name@,
    ensures
        ({
            let name = files[i].name@;
            let stamp = files[i].meta->0.stamp;
            let given = in_order(all_slides(m, files));
            let kept = remembered(m, files);
            let is_same = m.files.contains_key(name) && m.files[name].0 == stamp;
            &&& kept.contains_key(name) && kept[name].0 == stamp
            &&& has_to_load(m, name, files[i].meta) <==> !is_same
            &&& is_same ==> kept[name].1 == m.files[name].1
            &&& !is_same ==> match files[i].slides {
                Some(Ok(slides)) => kept[name].1 == slides@,
                _ => kept[name].1.len() == 0,
            }
            &&& forall|k: int|
                0 <= k < kept[name].1.len() ==> given.contains(#[trigger] kept[name].1[k])
        }),
{
    scanned_files_are_current(m, files, i);
    let name = files[i].name@;
    let all = all_slides(m, files);
    let kept = remembered(m, files);
    remembered_is_last(m, files, i);
    scans_are_in_order(all);
    all_slides_holds_each(m, files, i);
    assert forall|k: int| 0 <= k < kept[name].1.len() implies in_order(all).contains(
        #[trigger] kept[name].1[k],
    ) by {
        assert(all.contains(slides_of(m, files[i])[k]));
    }
}

proof fn remembered_is_last(m: LibraryModel, files: Seq<Loaded>, i: int)
    requires
        0 <= i < files.len(),
        is_file(files[i].meta),
    ensures
        remembered(m, files).contains_key(files[i].name@),
    decreases files.len(),
{
    if i < files.len() - 1 {
        remembered_is_last(m, files.drop_last(), i);
    }
}

proof fn all_slides_holds_each(m: LibraryModel, files: Seq<Loaded>, i: int)
    requires
        0 <= i < files.len(),
        is_file(files[i].meta),
    ensures
        forall|k: int|
            0 <= k < slides_of(m, files[i]).len() ==> all_slides(m, files).contains(
                #[trigger] slides_of(m, files[i])[k],
            ),
    decreases files.len(),
{
    let rest = files.drop_last();
    let before = all_slides(m, rest);
    let all = all_slides(m, files);
    assert forall|k: int| 0 <= k < slides_of(m, files[i]).len() implies all.contains(
        #[trigger] slides_of(m, files[i])[k],
    ) by {
        if i < files.len() - 1 {
            all_slides_holds_each(m, rest, i);
            assert(rest[i] == files[i]);
            assert(before.contains(slides_of(m, rest[i])[k]));
            let j = choose|j: int| 0 <= j < before.len() && before[j] == slides_of(m, files[i])[k];
            assert(all[j] == before[j]);
        } else {
            assert(all[before.len() + k] == slides_of(m, files[i])[k]);
        }
    }
}

/// A scan gives exactly what its files hold, each slide as often as they hold
/// it: of a file with the remembered stamp what is remembered, of another what
/// loading it gave, and nothing of what is no file or could not be loaded.
pub proof fn a_scan_gives_what_its_files_hold(
    m: LibraryModel,
    files: Seq<Loaded>,
    p: spec_fn(Arc<Slide>) -> bool,
)
    ensures
        ({
            let held = Seq::new(
                files.len(),
                |i: int|
                    {
                        let file = files[i];
                        if file.meta is None || !file.meta->0.is_file {
                            Seq::<Arc<Slide>>::empty()
                        } else if m.files.contains_key(file.name@) && m.files[file.name@].0
                            == file.meta->0.stamp {
                            m.files[file.name@].1
                        } else {
                            match file.slides {
                                Some(Ok(slides)) => slides@,
                                _ => Seq::empty(),
                            }
                        }
                    },
            );
            let given = in_order(all_slides(m, files));
            &&& given.len() == held.flatten().len()
            &&& given.filter(p).len() == held.flatten().filter(p).len()
        }),
{
    let held = Seq::new(
        files.len(),
        |i: int|
            {
                let file = files[i];
                if file.meta is None || !file.meta->0.is_file {
                    Seq::<Arc<Slide>>::empty()
                } else if m.files.contains_key(file.name@) && m.files[file.name@].0
                    == file.meta->0.stamp {
                    m.files[file.name@].1
                } else {
                    match file.slides {
                        Some(Ok(slides)) => slides@,
                        _ => Seq::empty(),
                    }
                }
            },
    );
    held_in_a_row(m, files, held);
    held.lemma_flatten_and_flatten_alt_are_equivalent();
    let all = all_slides(m, files);
    let given = in_order(all);
    sorting_keeps_counts(all, p);
    counting_is_picking_out(given, p);
    counting_is_picking_out(all, p);
    scans_are_in_order(all);
}

proof fn held_in_a_row(m: LibraryModel, files: Seq<Loaded>, held: Seq<Seq<Arc<Slide>>>)
    requires
        held.len() == files.len(),
        forall|i: int|
            0 <= i < files.len() ==> #[trigger] held[i] == if is_file(files[i].meta) {
                slides_of(m, files[i])
            } else {
                Seq::empty()
            },
    ensures
        held.flatten_alt() == all_slides(m, files),
    decreases files.len(),
{
    if files.len() > 0 {
        let rest = files.drop_last();
        let some = held.drop_last();
        assert forall|i: int| 0 <= i < rest.len() implies #[trigger] some[i] == if is_file(
            rest[i].meta,
        ) {
            slides_of(m, rest[i])
        } else {
            Seq::empty()
        } by {
            assert(held[i] == some[i]);
        }
        held_in_a_row(m, rest, some);
        assert(held[files.len() - 1] == held.last());
        assert(held.flatten_alt() =~= all_slides(m, files));
    }
}

proof fn sorting_keeps_counts(slides: Seq<Arc<Slide>>, p: spec_fn(Arc<Slide>) -> bool)
    ensures
        count(in_order(slides), p) == count(slides, p),
{
    let keys = slides.map_values(|s: Arc<Slide>| s.key());
    let places = order_of(keys);
    order_is_sorted(keys);
    let all = Seq::new(keys.len(), |i: int| i);
    let at = |i: int| p(slides[i]);
    count_same(in_order(slides), places, p, at);
    count_permutation(places, all, at);
    count_same(all, slides, at, p);
}

/// What a scan remembers are the files that were there.
pub proof fn a_scan_remembers_its_files(m: LibraryModel, files: Seq<Loaded>, name: Seq<u8>)
    ensures
        remembered(m, files).contains_key(name) <==> exists|i: int|
            0 <= i < files.len() && (#[trigger] files[i]).name@ == name && files[i].meta is Some
                && files[i].meta->0.is_file,
    decreases files.len(),
{
    if files.len() > 0 {
        let rest = files.drop_last();
        a_scan_remembers_its_files(m, rest, name);
        if exists|i: int|
            0 <= i < rest.len() && (#[trigger] rest[i]).name@ == name && rest[i].meta is Some
                && rest[i].meta->0.is_file {
            let i = choose|i: int|
                0 <= i < rest.len() && (#[trigger] rest[i]).name@ == name && rest[i].meta is Some
                    && rest[i].meta->0.is_file;
            assert(files[i].name@ == name);
        }
        if exists|i: int|
            0 <= i < files.len() && (#[trigger] files[i]).name@ == name && files[i].meta is Some
                && files[i].meta->0.is_file {
            let i = choose|i: int|
                0 <= i < files.len() && (#[trigger] files[i]).name@ == name && files[i].meta is Some
                    && files[i].meta->0.is_file;
            if i < rest.len() {
                assert(rest[i].name@ == name);
            }
        }
        if is_file(files.last().meta) && files.last().name@ == name {
            assert(files[files.len() - 1].name@ == name);
        }
    }
}

/// The slides of a scan come by the names of their files, those of one file by
/// page.
pub proof fn slides_come_by_file_and_page(slides: Seq<Arc<Slide>>, i: int, j: int)
    requires
        0 <= i < j < slides.len(),
    ensures
        ({
            let a = in_order(slides)[i].order;
            let b = in_order(slides)[j].order;
            if a.0@ == b.0@ {
                a.1 <= b.1
            } else {
                lex_le(a.0@, b.0@)
            }
        }),
{
    scans_are_in_order(slides);
    let a = in_order(slides)[i];
    let b = in_order(slides)[j];
    assert(!key_lt(b.key(), a.key()));
    key_lt_is_total(a.key(), b.key());
    lex_total(a.order.0@, b.order.0@);
}

/// A file that had to be loaded and could not be is reported with its path,
/// in the order of the files, and nothing else is.
pub proof fn failed_files_are_reported(m: LibraryModel, files: Seq<Loaded>)
    ensures
        ({
            let failed = files.filter(
                |f: Loaded|
                    {
                        &&& f.meta is Some && f.meta->0.is_file
                        &&& !(m.files.contains_key(f.name@) && m.files[f.name@].0
                            == f.meta->0.stamp)
                        &&& f.slides is Some && f.slides->0 is Err
                    },
            );
            &&& load_errors(m, files).len() == failed.len()
            &&& forall|i: int|
                0 <= i < failed.len() ==> #[trigger] load_errors(m, files)[i] == "slides: "@
                    + failed[i].path@ + ": "@ + failed[i].slides->0->Err_0@
        }),
    decreases files.len(),
{
    reveal(Seq::filter);
    if files.len() > 0 {
        failed_files_are_reported(m, files.drop_last());
    }
}

/// A directory that cannot be read has no slides any more. Why is reported,
/// unless it was the last thing reported; once the directory can be read again
/// that is forgotten, and the files are still known.
pub proof fn an_unreadable_directory_is_reported(
    m: LibraryModel,
    error: Seq<char>,
    names: Seq<Seq<u8>>,
)
    ensures
        begun(m, Err(error)).files == Map::<Seq<u8>, (Stamp, Seq<Arc<Slide>>)>::empty(),
        begun(m, Err(error)).error == Some("slides: "@ + m.dir + ": "@ + error),
        begun(m, Err(error)).dir == m.dir,
        m.error == Some("slides: "@ + m.dir + ": "@ + error) <==> begin_report(
            m,
            Err(error),
        ) is None,
        begin_report(m, Err(error)) is Some ==> begin_report(m, Err(error)) == Some(
            "slides: "@ + m.dir + ": "@ + error,
        ),
        begun(m, Ok(names)) == (LibraryModel { error: None, ..m }),
        begin_report(m, Ok(names)) is None,
{
}

// Which files are slides

/// Whether bytes spell a word, in small letters or capitals.
pub open spec fn spells(bytes: Seq<u8>, word: Seq<char>) -> bool {
    &&& bytes.len() == word.len()
    &&& forall|i: int|
        0 <= i < bytes.len() ==> (#[trigger] bytes[i]) as int == word[i] as int || (bytes[i] as int
            + 32 == word[i] as int && 'A' as int <= bytes[i] <= 'Z' as int)
}

proof fn spelling_is_lowercase(bytes: Seq<u8>, word: Seq<char>)
    requires
        forall|i: int| 0 <= i < word.len() ==> 'a' <= #[trigger] word[i] <= 'z',
    ensures
        spells(bytes, word) <==> lowercase(bytes) == word,
{
    let small = lowercase(bytes);
    if spells(bytes, word) {
        assert forall|i: int| 0 <= i < bytes.len() implies small[i] == word[i] by {
            assert(word[i] as int >= 97);
        }
        assert(small =~= word);
    }
    if small == word {
        assert forall|i: int| 0 <= i < bytes.len() implies (#[trigger] bytes[i]) as int
            == word[i] as int || (bytes[i] as int + 32 == word[i] as int && 'A' as int <= bytes[i]
            <= 'Z' as int) by {
            assert(small[i] == lower(bytes[i]) as char);
        }
    }
}

proof fn the_last_dot(stem: Seq<u8>, ext: Seq<u8>)
    requires
        forall|i: int| 0 <= i < ext.len() ==> (#[trigger] ext[i]) != DOT,
    ensures
        last_dot(stem + seq![DOT] + ext) == stem.len(),
    decreases ext.len(),
{
    let name = stem + seq![DOT] + ext;
    if ext.len() > 0 {
        let less = ext.drop_last();
        assert forall|i: int| 0 <= i < less.len() implies (#[trigger] less[i]) != DOT by {
            assert(ext[i] != DOT);
        }
        the_last_dot(stem, less);
        assert(name.drop_last() =~= stem + seq![DOT] + less);
        assert(name.last() == ext[ext.len() - 1]);
    } else {
        assert(name.last() == DOT);
    }
}

/// What follows the last dot of a name is its extension and what stands before
/// it, if anything, the rest; the extension says what kind of slide a file is,
/// in whichever case it is written.
pub proof fn kinds_go_by_the_extension(stem: Seq<u8>, ext: Seq<u8>)
    requires
        stem.len() > 0,
        forall|i: int| 0 <= i < ext.len() ==> (#[trigger] ext[i]) != '.' as u8,
    ensures
        ({
            let name = stem + seq!['.' as u8] + ext;
            &&& stem_of(name) == stem
            &&& extension_of(name) == Some(ext)
            &&& kind_of(name) == if spells(ext, "pdf"@) {
                Some(Kind::Pdf)
            } else if spells(ext, "png"@) {
                Some(Kind::Image("image/png"))
            } else if spells(ext, "jpg"@) || spells(ext, "jpeg"@) {
                Some(Kind::Image("image/jpeg"))
            } else if spells(ext, "webp"@) {
                Some(Kind::Image("image/webp"))
            } else {
                None
            }
        }),
{
    let name = stem + seq!['.' as u8] + ext;
    the_last_dot(stem, ext);
    assert(name.take(stem.len() as int) =~= stem);
    assert(name.skip(stem.len() as int + 1) =~= ext);
    reveal_strlit("pdf");
    reveal_strlit("png");
    reveal_strlit("jpg");
    reveal_strlit("jpeg");
    reveal_strlit("webp");
    spelling_is_lowercase(ext, "pdf"@);
    spelling_is_lowercase(ext, "png"@);
    spelling_is_lowercase(ext, "jpg"@);
    spelling_is_lowercase(ext, "jpeg"@);
    spelling_is_lowercase(ext, "webp"@);
}

/// A name without a dot behind its first character has no extension and is no
/// slide.
pub proof fn without_an_extension_no_slide(name: Seq<u8>)
    requires
        forall|i: int| 0 < i < name.len() ==> (#[trigger] name[i]) != '.' as u8,
    ensures
        kind_of(name) is None,
        extension_of(name) is None,
        stem_of(name) == name,
    decreases name.len(),
{
    if name.len() > 1 {
        assert(name.last() == name[name.len() - 1]);
        let less = name.drop_last();
        assert forall|i: int| 0 < i < less.len() implies (#[trigger] less[i]) != '.' as u8 by {
            assert(name[i] != '.' as u8);
        }
        without_an_extension_no_slide(less);
    } else if name.len() == 1 {
        assert(name.drop_last() =~= Seq::empty());
        assert(last_dot(Seq::empty()) == -1);
    }
}

proof fn filtering_keeps_members<A>(s: Seq<A>, p: spec_fn(A) -> bool, x: A)
    ensures
        s.filter(p).contains(x) <==> s.contains(x) && p(x),
    decreases s.len(),
{
    reveal(Seq::filter);
    if s.len() > 0 {
        let rest = s.drop_last();
        let some = rest.filter(p);
        let kept = s.filter(p);
        filtering_keeps_members(rest, p, x);
        if rest.contains(x) {
            let i = choose|i: int| 0 <= i < rest.len() && rest[i] == x;
            assert(s[i] == x);
        }
        if some.contains(x) {
            let i = choose|i: int| 0 <= i < some.len() && some[i] == x;
            assert(kept[i] == x);
        }
        if s.contains(x) && p(x) {
            let i = choose|i: int| 0 <= i < s.len() && s[i] == x;
            if i < rest.len() {
                assert(rest[i] == x);
            } else {
                assert(kept[kept.len() - 1] == x);
            }
        }
        if kept.contains(x) {
            let i = choose|i: int| 0 <= i < kept.len() && kept[i] == x;
            if i < some.len() {
                assert(some[i] == x);
            } else {
                assert(s[s.len() - 1] == x);
            }
        }
    }
}

/// The names to look at are those of the directory that do not begin with a
/// dot and have the extension of a slide: each as often as it is there, by
/// their bytes.
pub proof fn slides_are_looked_for_by_name(names: Seq<Seq<u8>>, name: Seq<u8>, i: int, j: int)
    ensures
        wanted(names).contains(name) <==> names.contains(name) && kind_of(name) is Some
            && !(name.len() > 0 && name[0] == '.' as u8),
        wanted(names).len() == names.filter(
            |n: Seq<u8>| kind_of(n) is Some && !(n.len() > 0 && n[0] == '.' as u8),
        ).len(),
        0 <= i < j < wanted(names).len() ==> is_named_first(wanted(names)[i], wanted(names)[j]),
{
    let is_one = |n: Seq<u8>| is_wanted(n);
    let chosen = names.filter(is_one);
    assert(is_one =~= |n: Seq<u8>|
        kind_of(n) is Some && !(n.len() > 0 && n[0] == '.' as u8));
    let keys = chosen.map_values(|n: Seq<u8>| name_key(n));
    order_is_sorted(keys);
    let places = order_of(keys);
    let list = wanted(names);
    filtering_keeps_members(names, is_one, name);
    if list.contains(name) {
        let k = choose|k: int| 0 <= k < list.len() && list[k] == name;
        assert(chosen[places[k]] == name);
    }
    if chosen.contains(name) {
        let p = choose|p: int| 0 <= p < chosen.len() && chosen[p] == name;
        assert(places.contains(p));
        let k = choose|k: int| 0 <= k < places.len() && places[k] == p;
        assert(list[k] == name);
    }
    if 0 <= i < j < list.len() {
        assert(listed(keys, places[i], places[j]));
        name_keys_compare_bytes(list[i], list[j]);
    }
}

// What a slide is

/// A slide shows the content of its file under a name made of the content: its
/// hash as sixteen hexadecimal digits, and the extension. It is described by
/// the file's name without extension, and comes by the file's name and page.
pub proof fn a_slide_is_named_by_its_content(
    s: Slide,
    file: Seq<u8>,
    page: u32,
    content_type: Seq<char>,
    ext: Seq<char>,
    body: Seq<u8>,
)
    requires
        is_slide_of(s, file, page, content_type, ext, body),
    ensures
        s.body@ == body,
        s.content_type@ == content_type,
        s.order.0@ == lossy_text(file),
        s.order.1 == page,
        s.alt@ == lossy_text(stem_of(file)),
        s.name@.len() == 17 + ext.len(),
        hex_number(s.name@.take(16)) == fnv1a_of(body),
        s.name@.skip(16) == "."@ + ext,
{
    reveal_strlit(".");
    assert(sixteens(16) == 0x1_0000_0000_0000_0000) by {
        reveal_with_fuel(sixteens, 17);
    }
    let hash = hex_padded(fnv1a_of(body) as nat, 16);
    padded_hex_stands_for_its_number(fnv1a_of(body) as nat, 16);
    assert(s.name@.take(16) =~= hash);
    assert(s.name@.skip(16) =~= "."@ + ext);
}

/// The pages of a PDF are PNG images; other images are what they are, and keep
/// their extension in small letters.
pub proof fn slides_are_what_their_files_are(name: Seq<u8>, content_type: &'static str)
    ensures
        content_type_of(Kind::Pdf) == "image/png"@,
        slide_extension(name, Kind::Pdf) == "png"@,
        content_type_of(Kind::Image(content_type)) == content_type@,
        extension_of(name) matches Some(ext) ==> {
            let small = slide_extension(name, Kind::Image(content_type));
            &&& small.len() == ext.len()
            &&& forall|i: int|
                0 <= i < ext.len() ==> (#[trigger] small[i]) as int == if 'A' as int <= ext[i]
                    <= 'Z' as int {
                    ext[i] + 32
                } else {
                    ext[i] as int
                }
        },
{
}

/// The hash takes the bytes one after the other: each is mixed in and the
/// result multiplied, without what does not fit into 64 bits.
pub proof fn the_hash_takes_byte_by_byte(bytes: Seq<u8>, b: u8)
    ensures
        fnv1a_of(Seq::empty()) == 14695981039346656037,
        fnv1a_of(bytes.push(b)) == ((fnv1a_of(bytes) ^ (b as u64)) * 1099511628211)
            % 0x1_0000_0000_0000_0000,
{
    assert(bytes.push(b).drop_last() =~= bytes);
}

// Pages

/// Lines of `pdfinfo` that do not begin with `Pages:` say nothing of pages.
pub proof fn other_lines_say_nothing_of_pages(line: Seq<char>, rest: Seq<char>)
    requires
        forall|i: int| 0 <= i < line.len() ==> (#[trigger] line[i]) != '\n',
        line.len() < 6 || line.take(6) != "Pages:"@,
    ensures
        page_count(line + seq!['\n'] + rest) == page_count(rest),
        page_count(line) is None,
{
    let text = line + seq!['\n'] + rest;
    let n = line.len() as int;
    assert(text =~= line + (seq!['\n'] + rest));
    until_after(line, seq!['\n'] + rest, '\n');
    assert(text.take(n) =~= line);
    assert(text.skip(n + 1) =~= rest);
    until_after(line, Seq::empty(), '\n');
    assert(line + Seq::<char>::empty() =~= line);
    assert(line.take(n) =~= line);
    if rest.len() == 0 {
        let end = until(rest, '\n') as int;
        assert(rest.take(end).len() == 0);
        reveal_strlit("Pages:");
    }
}

/// The number on the first line that begins with `Pages:` is the number of
/// pages, whatever white space is around it.
pub proof fn the_pages_line_says_how_many(
    before: Seq<char>,
    n: nat,
    after: Seq<char>,
    tail: Seq<char>,
)
    requires
        n <= u32::MAX,
        forall|i: int|
            0 <= i < before.len() ==> is_space(#[trigger] before[i]) && before[i] != '\n',
        forall|i: int| 0 <= i < after.len() ==> is_space(#[trigger] after[i]) && after[i] != '\n',
        tail.len() == 0 || tail[0] == '\n',
    ensures
        page_count("Pages:"@ + before + decimal(n) + after + tail) == Some(n),
{
    reveal_strlit("Pages:");
    decimal_len(n);
    let digits = decimal(n);
    let value = before + digits + after;
    let line = "Pages:"@ + value;
    let text = "Pages:"@ + before + digits + after + tail;
    assert(text =~= line + tail);
    assert forall|i: int| 0 <= i < line.len() implies (#[trigger] line[i]) != '\n' by {
        if i >= 6 {
            let k = i - 6;
            assert(line[i] == value[k]);
            if k < before.len() {
                assert(value[k] == before[k]);
            } else if k < before.len() + digits.len() {
                assert(value[k] == digits[k - before.len()]);
            } else {
                assert(value[k] == after[k - before.len() - digits.len()]);
            }
        }
    }
    until_after(line, tail, '\n');
    assert(text.take(line.len() as int) =~= line);
    assert(line.take(6) =~= "Pages:"@);
    assert(line.skip(6) =~= value);
    trim_inner(before, digits, after);
    written_numbers_are_read(n, u32::MAX as nat, digits);
}

proof fn trim_inner(before: Seq<char>, inner: Seq<char>, after: Seq<char>)
    requires
        forall|i: int| 0 <= i < before.len() ==> is_space(#[trigger] before[i]),
        forall|i: int| 0 <= i < after.len() ==> is_space(#[trigger] after[i]),
        inner.len() > 0,
        !is_space(inner[0]),
        !is_space(inner.last()),
    ensures
        trim(before + inner + after) == inner,
    decreases before.len() + after.len(),
{
    let s = before + inner + after;
    if before.len() > 0 {
        let less = before.drop_first();
        assert forall|i: int| 0 <= i < less.len() implies is_space(#[trigger] less[i]) by {
            assert(is_space(before[i + 1]));
        }
        trim_inner(less, inner, after);
        assert(is_space(before[0]));
        assert(s =~= seq![before[0]] + (less + inner + after));
        trim_skips(before[0], less + inner + after);
    } else if after.len() > 0 {
        let less = after.drop_last();
        assert forall|i: int| 0 <= i < less.len() implies is_space(#[trigger] less[i]) by {
            assert(is_space(after[i]));
        }
        trim_inner(before, inner, less);
        let shorter = before + inner + less;
        assert(s.drop_last() =~= shorter);
        assert(s[0] == inner[0] && shorter[0] == inner[0]);
        assert(s.last() == after[after.len() - 1]);
    } else {
        assert(s =~= inner);
    }
}

// The rotation

/// The slide that follows is one of the slides; without one shown before, it
/// is the first. Without slides there is none.
pub proof fn what_follows_is_a_slide(slides: Seq<Arc<Slide>>, current: Option<Key>)
    ensures
        following(slides, current) is None <==> slides.len() == 0,
        following(slides, current) matches Some(s) ==> slides.contains(s),
        slides.len() > 0 ==> following(slides, None) == Some(slides[0]),
{
    if slides.len() > 0 {
        assert(slides.contains(slides[0]));
        if current is Some && first_after(slides, current->0) < slides.len() {
            assert(slides.contains(slides[first_after(slides, current->0) as int]));
        }
    }
}

/// Of two slides the one whose file comes first by name comes first, and of
/// one file the one with the lower page: that is the order of the rotation.
pub proof fn the_rotation_goes_by_file_and_page(a: Slide, b: Slide)
    ensures
        key_lt(a.key(), b.key()) <==> if a.order.0@ == b.order.0@ {
            a.order.1 < b.order.1
        } else {
            lex_le(a.order.0@, b.order.0@)
        },
{
}

/// A program that succeeds gives what it printed. One that fails is reported
/// with its name, how it ended, and what it said of it without the white space
/// around.
pub proof fn what_a_program_gives(
    program: Seq<char>,
    status: Seq<char>,
    stdout: Seq<u8>,
    stderr: Seq<u8>,
)
    ensures
        output_of(program, status, true, stdout, stderr) == Ok::<Seq<u8>, Seq<char>>(stdout),
        output_of(program, status, false, stdout, stderr) == Err::<Seq<u8>, Seq<char>>(
            program + " failed ("@ + status + "): "@ + trim(lossy_text(stderr)),
        ),
{
}

} // verus!
