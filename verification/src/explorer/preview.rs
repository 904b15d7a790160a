//! What is shown of a file, and what has to be read for it.
//!
//! A file is first asked for its size; its name tells what kind it is. Pictures and documents are
//! read whole, unless they are too large; texts are read up to a limit; of a file whose name tells
//! nothing the head is read first, since it may be no text at all.

use crate::bytes::{lossy, lossy_text};
use crate::explorer::base64::{
    base64_decode, base64_encode, decoded, encoded, encoded_is_read_back,
};
use crate::explorer::ripgrep::is_binary_head;
use crate::explorer::types::{Preview, PreviewOpts};
use crate::number::{parse_u64, unsigned};
use crate::pathname::{extension, path_extension};
use crate::text::{copy, in_list, lowered, opt_text, same, texts, to_lower, trim, trimmed};
use vstd::prelude::*;

verus! {

/// What kind of file a name tells of.
#[derive(Clone, Copy, PartialEq, Eq, Debug, Structural)]
pub enum PathCategory {
    Text,
    Markdown,
    Image,
    Pdf,
    /// No text in any case.
    KnownBinary,
}

/// The extension of a file's name in lower case; empty where it has none.
pub open spec fn kind_word(p: Seq<char>) -> Seq<char> {
    match extension(p) {
        Some(e) => lowered(e),
        None => seq![],
    }
}

/// The extensions of Markdown.
pub open spec fn markdown_words() -> Seq<Seq<char>> {
    seq!["md"@, "mdx"@, "markdown"@]
}

/// The extensions of pictures.
pub open spec fn image_words() -> Seq<Seq<char>> {
    seq!["png"@, "jpg"@, "jpeg"@, "gif"@, "webp"@, "bmp"@, "svg"@, "ico"@]
}

/// The extensions of files that hold no text.
pub open spec fn binary_words() -> Seq<Seq<char>> {
    seq![
        "zip"@, "gz"@, "tar"@, "bz2"@, "xz"@, "7z"@, "rar"@, "exe"@, "dll"@, "so"@, "dylib"@,
        "class"@, "jar"@, "war"@, "wasm"@, "mp4"@, "mov"@, "avi"@, "mkv"@, "mp3"@, "wav"@,
        "flac"@, "ogg"@, "ttf"@, "otf"@, "woff"@, "woff2"@,
    ]
}

/// What kind of file a path's name tells of.
pub open spec fn category(p: Seq<char>) -> PathCategory {
    let w = kind_word(p);
    if markdown_words().contains(w) {
        PathCategory::Markdown
    } else if image_words().contains(w) {
        PathCategory::Image
    } else if w == "pdf"@ {
        PathCategory::Pdf
    } else if binary_words().contains(w) {
        PathCategory::KnownBinary
    } else {
        PathCategory::Text
    }
}

fn read_kind_word(p: &str) -> (r: String)
    ensures
        r@ == kind_word(p@),
{
    match path_extension(p) {
        Some(e) => to_lower(e.as_str()),
        None => {
            let e: String = String::new();
            assert(e@ =~= seq![]);
            e
        },
    }
}

fn is_markdown_word(w: &str) -> (r: bool)
    ensures
        r == markdown_words().contains(w@),
{
    let v: Vec<String> = vec![copy("md"), copy("mdx"), copy("markdown")];
    assert(texts(v@) =~= markdown_words());
    in_list(&v, w)
}

fn is_image_word(w: &str) -> (r: bool)
    ensures
        r == image_words().contains(w@),
{
    let v: Vec<String> = vec![
        copy("png"),
        copy("jpg"),
        copy("jpeg"),
        copy("gif"),
        copy("webp"),
        copy("bmp"),
        copy("svg"),
        copy("ico"),
    ];
    assert(texts(v@) =~= image_words());
    in_list(&v, w)
}

fn is_binary_word(w: &str) -> (r: bool)
    ensures
        r == binary_words().contains(w@),
{
    let v: Vec<String> = vec![
        copy("zip"), copy("gz"), copy("tar"), copy("bz2"), copy("xz"), copy("7z"), copy("rar"),
        copy("exe"), copy("dll"), copy("so"), copy("dylib"), copy("class"), copy("jar"),
        copy("war"), copy("wasm"), copy("mp4"), copy("mov"), copy("avi"), copy("mkv"), copy("mp3"),
        copy("wav"), copy("flac"), copy("ogg"), copy("ttf"), copy("otf"), copy("woff"),
        copy("woff2"),
    ];
    assert(texts(v@) =~= binary_words());
    in_list(&v, w)
}

/// What kind of file a path's name tells of.
pub fn classify_path(p: &str) -> (r: PathCategory)
    ensures
        r == category(p@),
{
    let w: String = read_kind_word(p);
    if is_markdown_word(w.as_str()) {
        PathCategory::Markdown
    } else if is_image_word(w.as_str()) {
        PathCategory::Image
    } else if same(w.as_str(), "pdf") {
        PathCategory::Pdf
    } else if is_binary_word(w.as_str()) {
        PathCategory::KnownBinary
    } else {
        PathCategory::Text
    }
}

/// The media type of a picture by its name's extension.
pub open spec fn image_mime(p: Seq<char>) -> Option<Seq<char>> {
    let w = kind_word(p);
    if w == "png"@ {
        Some("image/png"@)
    } else if w == "jpg"@ || w == "jpeg"@ {
        Some("image/jpeg"@)
    } else if w == "gif"@ {
        Some("image/gif"@)
    } else if w == "webp"@ {
        Some("image/webp"@)
    } else if w == "bmp"@ {
        Some("image/bmp"@)
    } else if w == "svg"@ {
        Some("image/svg+xml"@)
    } else if w == "ico"@ {
        Some("image/x-icon"@)
    } else {
        None
    }
}

/// The media type of a picture by its name's extension.
pub fn guess_image_mime(p: &str) -> (r: Option<String>)
    ensures
        opt_text(r) == image_mime(p@),
{
    let word: String = read_kind_word(p);
    let w: &str = word.as_str();
    if same(w, "png") {
        Some(copy("image/png"))
    } else if same(w, "jpg") || same(w, "jpeg") {
        Some(copy("image/jpeg"))
    } else if same(w, "gif") {
        Some(copy("image/gif"))
    } else if same(w, "webp") {
        Some(copy("image/webp"))
    } else if same(w, "bmp") {
        Some(copy("image/bmp"))
    } else if same(w, "svg") {
        Some(copy("image/svg+xml"))
    } else if same(w, "ico") {
        Some(copy("image/x-icon"))
    } else {
        None
    }
}

/// The language of a text: its name's extension in lower case.
pub open spec fn language(p: Seq<char>) -> Option<Seq<char>> {
    match extension(p) {
        Some(e) => Some(lowered(e)),
        None => None,
    }
}

/// The language of a text.
pub fn guess_language(p: &str) -> (r: Option<String>)
    ensures
        opt_text(r) == language(p@),
{
    match path_extension(p) {
        Some(e) => Some(to_lower(e.as_str())),
        None => None,
    }
}

// ---------------------------------------------------------------- steps

/// What is shown, as text.
#[allow(inconsistent_fields)]
pub enum PreviewView {
    Text { content: Seq<char>, language: Option<Seq<char>>, truncated: bool, size: u64 },
    Markdown { content: Seq<char>, truncated: bool, size: u64 },
    Image { mime: Seq<char>, base64: Seq<char>, size: u64 },
    Pdf { base64: Seq<char>, size: u64 },
    Binary { size: u64, mime: Option<Seq<char>> },
    TooLarge { size: u64, limit: u64 },
}

impl Preview {
    pub open spec fn view(&self) -> PreviewView {
        match *self {
            Preview::Text { content, language, truncated, size } => PreviewView::Text {
                content: content@,
                language: opt_text(language),
                truncated,
                size,
            },
            Preview::Markdown { content, truncated, size } => PreviewView::Markdown {
                content: content@,
                truncated,
                size,
            },
            Preview::Image { mime, base64, size } => PreviewView::Image {
                mime: mime@,
                base64: base64@,
                size,
            },
            Preview::Pdf { base64, size } => PreviewView::Pdf { base64: base64@, size },
            Preview::Binary { size, mime } => PreviewView::Binary { size, mime: opt_text(mime) },
            Preview::TooLarge { size, limit } => PreviewView::TooLarge { size, limit },
        }
    }
}

/// What is to be read next.
#[derive(Debug)]
pub enum PreviewStep {
    /// The size.
    Size,
    /// The whole file.
    Whole { size: u64 },
    /// The head, to see whether it is a text.
    Head { size: u64 },
    /// The text, up to the limit.
    Body { size: u64 },
    /// Nothing more.
    Done(Preview),
}

/// What is to be read next, as text.
pub enum StepView {
    Size,
    Whole { size: u64 },
    Head { size: u64 },
    Body { size: u64 },
    Done(PreviewView),
}

impl PreviewStep {
    pub open spec fn view(&self) -> StepView {
        match *self {
            PreviewStep::Size => StepView::Size,
            PreviewStep::Whole { size } => StepView::Whole { size },
            PreviewStep::Head { size } => StepView::Head { size },
            PreviewStep::Body { size } => StepView::Body { size },
            PreviewStep::Done(p) => StepView::Done(p@),
        }
    }
}

/// Why nothing is shown.
#[derive(Clone, Copy, PartialEq, Eq, Debug, Structural)]
pub enum PreviewError {
    /// It is a directory.
    Directory,
    /// The size that was told is no number.
    BadSize,
}

/// A step as text, where there is one.
pub open spec fn step_view(r: Result<PreviewStep, PreviewError>) -> Result<StepView, PreviewError> {
    match r {
        Ok(s) => Ok(s@),
        Err(e) => Err(e),
    }
}

/// How large a file of a kind may be.
pub open spec fn limit_of(c: PathCategory, opts: PreviewOpts) -> u64 {
    match c {
        PathCategory::Image => opts.image_limit,
        PathCategory::Pdf => opts.pdf_limit,
        _ => opts.text_limit,
    }
}

/// What follows once the size is known. Texts may be of any size, since only a part is read.
pub open spec fn after_size(path: Seq<char>, size: u64, opts: PreviewOpts) -> StepView {
    let c = category(path);
    if size > limit_of(c, opts) && c != PathCategory::Text && c != PathCategory::Markdown {
        StepView::Done(PreviewView::TooLarge { size, limit: limit_of(c, opts) })
    } else {
        match c {
            PathCategory::Image => StepView::Whole { size },
            PathCategory::Pdf => StepView::Whole { size },
            PathCategory::Markdown => StepView::Body { size },
            PathCategory::KnownBinary => StepView::Done(PreviewView::Binary { size, mime: None }),
            PathCategory::Text => StepView::Head { size },
        }
    }
}

/// What a file that was read whole shows; `letters` are its bytes in base64.
pub open spec fn whole_shown(path: Seq<char>, size: u64, letters: Seq<char>) -> PreviewView {
    if category(path) == PathCategory::Image {
        PreviewView::Image {
            mime: match image_mime(path) {
                Some(m) => m,
                None => "image/png"@,
            },
            base64: letters,
            size,
        }
    } else {
        PreviewView::Pdf { base64: letters, size }
    }
}

/// What follows once the head was read.
pub open spec fn after_head(size: u64, head: Seq<u8>) -> StepView {
    if head.contains(0u8) {
        StepView::Done(PreviewView::Binary { size, mime: None })
    } else {
        StepView::Body { size }
    }
}

/// What a text shows.
pub open spec fn body_shown(path: Seq<char>, size: u64, content: Seq<char>, truncated: bool) -> PreviewView {
    if category(path) == PathCategory::Markdown {
        PreviewView::Markdown { content, truncated, size }
    } else {
        PreviewView::Text { content, language: language(path), truncated, size }
    }
}

fn step_after_size(path: &str, size: u64, opts: &PreviewOpts) -> (r: PreviewStep)
    ensures
        r@ == after_size(path@, size, *opts),
{
    let c: PathCategory = classify_path(path);
    let limit: u64 = match c {
        PathCategory::Image => opts.image_limit,
        PathCategory::Pdf => opts.pdf_limit,
        _ => opts.text_limit,
    };
    if size > limit && c != PathCategory::Text && c != PathCategory::Markdown {
        return PreviewStep::Done(Preview::TooLarge { size, limit });
    }
    match c {
        PathCategory::Image => PreviewStep::Whole { size },
        PathCategory::Pdf => PreviewStep::Whole { size },
        PathCategory::Markdown => PreviewStep::Body { size },
        PathCategory::KnownBinary => PreviewStep::Done(Preview::Binary { size, mime: None }),
        PathCategory::Text => PreviewStep::Head { size },
    }
}

fn show_whole(path: &str, size: u64, letters: String) -> (r: Preview)
    ensures
        r@ == whole_shown(path@, size, letters@),
{
    if classify_path(path) == PathCategory::Image {
        let mime: String = match guess_image_mime(path) {
            Some(m) => m,
            None => copy("image/png"),
        };
        Preview::Image { mime, base64: letters, size }
    } else {
        Preview::Pdf { base64: letters, size }
    }
}

fn step_after_head(size: u64, head: &[u8]) -> (r: PreviewStep)
    ensures
        r@ == after_head(size, head@),
{
    if is_binary_head(head) {
        PreviewStep::Done(Preview::Binary { size, mime: None })
    } else {
        PreviewStep::Body { size }
    }
}

fn show_body(path: &str, size: u64, content: String, truncated: bool) -> (r: Preview)
    ensures
        r@ == body_shown(path@, size, content@, truncated),
{
    if classify_path(path) == PathCategory::Markdown {
        Preview::Markdown { content, truncated, size }
    } else {
        Preview::Text { content, language: guess_language(path), truncated, size }
    }
}

// ---------------------------------------------------------------- files here

/// What was read of a file here.
#[derive(Debug)]
pub enum LocalRead {
    Meta { is_dir: bool, size: u64 },
    /// Bytes, and how many the file has by now.
    Bytes { data: Vec<u8>, total: u64 },
}

/// Whether this is what the step asked for.
pub open spec fn local_answers(at: StepView, got: LocalRead) -> bool {
    match at {
        StepView::Size => got is Meta,
        StepView::Done(_) => false,
        _ => got is Bytes,
    }
}

/// What follows for a file here.
pub open spec fn next_local(path: Seq<char>, opts: PreviewOpts, at: StepView, got: LocalRead) -> Result<
    StepView,
    PreviewError,
> {
    match (at, got) {
        (StepView::Size, LocalRead::Meta { is_dir, size }) => if is_dir {
            Err(PreviewError::Directory)
        } else {
            Ok(after_size(path, size, opts))
        },
        (StepView::Whole { size }, LocalRead::Bytes { data, .. }) => Ok(
            StepView::Done(whole_shown(path, size, encoded(data@))),
        ),
        (StepView::Head { size }, LocalRead::Bytes { data, .. }) => Ok(after_head(size, data@)),
        (StepView::Body { size }, LocalRead::Bytes { data, total }) => Ok(
            StepView::Done(body_shown(path, size, lossy(data@), total > opts.text_limit)),
        ),
        _ => Ok(at),
    }
}

/// What follows for a file here, given what was read.
pub fn preview_local(path: &str, opts: &PreviewOpts, at: PreviewStep, got: LocalRead) -> (r: Result<
    PreviewStep,
    PreviewError,
>)
    requires
        local_answers(at@, got),
    ensures
        step_view(r) == next_local(path@, *opts, at@, got),
{
    match (at, got) {
        (PreviewStep::Size, LocalRead::Meta { is_dir, size }) => if is_dir {
            Err(PreviewError::Directory)
        } else {
            Ok(step_after_size(path, size, opts))
        },
        (PreviewStep::Whole { size }, LocalRead::Bytes { data, .. }) => Ok(
            PreviewStep::Done(show_whole(path, size, base64_encode(data.as_slice()))),
        ),
        (PreviewStep::Head { size }, LocalRead::Bytes { data, .. }) => Ok(
            step_after_head(size, data.as_slice()),
        ),
        (PreviewStep::Body { size }, LocalRead::Bytes { data, total }) => {
            let content: String = lossy_text(data.as_slice());
            Ok(PreviewStep::Done(show_body(path, size, content, total > opts.text_limit)))
        },
        (at, _) => Ok(at),
    }
}

// ---------------------------------------------------------------- files on a remote machine

/// Whether a byte is a space, a tab or the end of a line.
pub open spec fn spacing(b: u8) -> bool {
    b == 9 || b == 10 || b == 13 || b == 32
}

/// Bytes as characters of the same number, without spaces, tabs and line ends.
pub open spec fn unspaced(b: Seq<u8>) -> Seq<char>
    decreases b.len(),
{
    if b.len() == 0 {
        seq![]
    } else if spacing(b.last()) {
        unspaced(b.drop_last())
    } else {
        unspaced(b.drop_last()).push(b.last() as char)
    }
}

/// Bytes as characters of the same number, without spaces, tabs and line ends.
pub fn strip_whitespace(bytes: &[u8]) -> (r: String)
    ensures
        r@ == unspaced(bytes@),
{
    let mut out: String = String::new();
    let mut i: usize = 0;
    assert(out@ =~= unspaced(bytes@.take(0)));
    while i < bytes.len()
        invariant
            i <= bytes@.len(),
            out@ == unspaced(bytes@.take(i as int)),
        decreases bytes@.len() - i,
    {
        proof {
            assert(bytes@.take(i + 1).drop_last() =~= bytes@.take(i as int));
        }
        let b: u8 = bytes[i];
        if !(b == 9 || b == 10 || b == 13 || b == 32) {
            out.push(b as char);
        }
        i += 1;
    }
    assert(bytes@.take(bytes@.len() as int) =~= bytes@);
    out
}

/// The bytes that were sent in base64.
pub open spec fn received(out: Seq<u8>) -> Seq<u8> {
    decoded(unspaced(out))
}

fn receive(out: &[u8]) -> (r: Vec<u8>)
    ensures
        r@ == received(out@),
{
    base64_decode(strip_whitespace(out).as_str())
}

/// The size that a remote machine tells.
pub open spec fn told_size(out: Seq<u8>) -> Option<nat> {
    unsigned(trimmed(lossy(out)), u64::MAX as nat)
}

/// What follows for a file on a remote machine, given what the step's command printed.
pub open spec fn next_remote(path: Seq<char>, opts: PreviewOpts, at: StepView, out: Seq<u8>) -> Result<
    StepView,
    PreviewError,
> {
    match at {
        StepView::Size => match told_size(out) {
            Some(n) => Ok(after_size(path, n as u64, opts)),
            None => Err(PreviewError::BadSize),
        },
        StepView::Whole { size } => Ok(StepView::Done(whole_shown(path, size, unspaced(out)))),
        StepView::Head { size } => Ok(after_head(size, received(out))),
        StepView::Body { size } => Ok(
            StepView::Done(body_shown(path, size, lossy(received(out)), size > opts.text_limit)),
        ),
        StepView::Done(_) => Ok(at),
    }
}

/// What follows for a file on a remote machine, given what the step's command printed.
pub fn preview_remote(path: &str, opts: &PreviewOpts, at: PreviewStep, out: &[u8]) -> (r: Result<
    PreviewStep,
    PreviewError,
>)
    ensures
        step_view(r) == next_remote(path@, *opts, at@, out@),
{
    match at {
        PreviewStep::Size => match parse_u64(trim(lossy_text(out).as_str()).as_str()) {
            Some(n) => Ok(step_after_size(path, n, opts)),
            None => Err(PreviewError::BadSize),
        },
        PreviewStep::Whole { size } => Ok(
            PreviewStep::Done(show_whole(path, size, strip_whitespace(out))),
        ),
        PreviewStep::Head { size } => Ok(step_after_head(size, receive(out).as_slice())),
        PreviewStep::Body { size } => {
            let data: Vec<u8> = receive(out);
            let content: String = lossy_text(data.as_slice());
            Ok(PreviewStep::Done(show_body(path, size, content, size > opts.text_limit)))
        },
        PreviewStep::Done(p) => Ok(PreviewStep::Done(p)),
    }
}

// ---------------------------------------------------------------- laws

/// A file is read whole only where it is within the limit of its kind, and only pictures and
/// documents are; what is too large is told with its limit.
pub proof fn whole_is_within_the_limit(path: Seq<char>, size: u64, opts: PreviewOpts)
    ensures
        after_size(path, size, opts) is Whole ==> size <= limit_of(category(path), opts) && (
        category(path) == PathCategory::Image || category(path) == PathCategory::Pdf),
        after_size(path, size, opts) matches StepView::Done(PreviewView::TooLarge { size: s, limit })
            ==> s == size && size > limit,
{
}

/// How many steps can still follow.
pub open spec fn preview_left(at: StepView) -> nat {
    match at {
        StepView::Size => 3,
        StepView::Head { .. } => 2,
        StepView::Whole { .. } => 1,
        StepView::Body { .. } => 1,
        StepView::Done(_) => 0,
    }
}

/// Every step leads on: after three at most there is something to show, or a reason why not.
pub proof fn preview_comes_to_an_end(
    path: Seq<char>,
    opts: PreviewOpts,
    at: StepView,
    got: LocalRead,
    out: Seq<u8>,
)
    requires
        !(at is Done),
        local_answers(at, got),
    ensures
        next_local(path, opts, at, got) matches Ok(s) ==> preview_left(s) < preview_left(at),
        next_remote(path, opts, at, out) matches Ok(s) ==> preview_left(s) < preview_left(at),
{
}

/// A picture or document shows the same from a remote machine as from here, where the machine
/// sends the file's bytes in base64, on however many lines.
pub proof fn remote_shows_the_same_bytes(path: Seq<char>, opts: PreviewOpts, size: u64, data: Seq<u8>, out: Seq<u8>)
    requires
        unspaced(out) == encoded(data),
    ensures
        next_remote(path, opts, StepView::Whole { size }, out) == Ok::<StepView, PreviewError>(
            StepView::Done(whole_shown(path, size, encoded(data))),
        ),
        next_remote(path, opts, StepView::Head { size }, out) == Ok::<StepView, PreviewError>(
            after_head(size, data),
        ),
        next_remote(path, opts, StepView::Body { size }, out) == Ok::<StepView, PreviewError>(
            StepView::Done(body_shown(path, size, lossy(data), size > opts.text_limit)),
        ),
{
    crate::explorer::base64::encoded_is_read_back(data);
}

// ---------------------------------------------------------------- what a preview promises

/// What a file is shown as goes by the extension of its name, in either case: Markdown, an image, a PDF,
/// nothing for what is known to be no text, and a text for all else.
pub proof fn file_is_shown_by_its_extension(p: Seq<char>, w: Seq<char>)
    requires
        extension(p) matches Some(e) ==> lowered(e) == w,
        extension(p) is None ==> w.len() == 0,
    ensures
        ({
            let markdown = w == "md"@ || w == "mdx"@ || w == "markdown"@;
            let image = w == "png"@ || w == "jpg"@ || w == "jpeg"@ ||
            w == "gif"@ || w == "webp"@ || w == "bmp"@ ||
            w == "svg"@ || w == "ico"@;
            let binary = w == "zip"@ || w == "gz"@ || w == "tar"@ ||
            w == "bz2"@ || w == "xz"@ || w == "7z"@ ||
            w == "rar"@ || w == "exe"@ || w == "dll"@ ||
            w == "so"@ || w == "dylib"@ || w == "class"@ ||
            w == "jar"@ || w == "war"@ || w == "wasm"@ ||
            w == "mp4"@ || w == "mov"@ || w == "avi"@ ||
            w == "mkv"@ || w == "mp3"@ || w == "wav"@ ||
            w == "flac"@ || w == "ogg"@ || w == "ttf"@ ||
            w == "otf"@ || w == "woff"@ || w == "woff2"@;
            &&& markdown ==> category(p) == PathCategory::Markdown
            &&& image && !markdown ==> category(p) == PathCategory::Image
            &&& w == "pdf"@ && !markdown && !image ==> category(p) == PathCategory::Pdf
            &&& binary && !markdown && !image && w != "pdf"@ ==> category(p)
                == PathCategory::KnownBinary
            &&& !binary && !markdown && !image && w != "pdf"@ ==> category(p) == PathCategory::Text
        }),
        extension(p) is Some ==> language(p) == Some(w),
        extension(p) is None ==> language(p) is None,
{
    if extension(p) is None {
        assert(kind_word(p) =~= w);
    }
    assert(markdown_words()[0] == "md"@);
    assert(markdown_words()[1] == "mdx"@);
    assert(markdown_words()[2] == "markdown"@);
    assert(image_words()[0] == "png"@);
    assert(image_words()[1] == "jpg"@);
    assert(image_words()[2] == "jpeg"@);
    assert(image_words()[3] == "gif"@);
    assert(image_words()[4] == "webp"@);
    assert(image_words()[5] == "bmp"@);
    assert(image_words()[6] == "svg"@);
    assert(image_words()[7] == "ico"@);
    assert(binary_words()[0] == "zip"@);
    assert(binary_words()[1] == "gz"@);
    assert(binary_words()[2] == "tar"@);
    assert(binary_words()[3] == "bz2"@);
    assert(binary_words()[4] == "xz"@);
    assert(binary_words()[5] == "7z"@);
    assert(binary_words()[6] == "rar"@);
    assert(binary_words()[7] == "exe"@);
    assert(binary_words()[8] == "dll"@);
    assert(binary_words()[9] == "so"@);
    assert(binary_words()[10] == "dylib"@);
    assert(binary_words()[11] == "class"@);
    assert(binary_words()[12] == "jar"@);
    assert(binary_words()[13] == "war"@);
    assert(binary_words()[14] == "wasm"@);
    assert(binary_words()[15] == "mp4"@);
    assert(binary_words()[16] == "mov"@);
    assert(binary_words()[17] == "avi"@);
    assert(binary_words()[18] == "mkv"@);
    assert(binary_words()[19] == "mp3"@);
    assert(binary_words()[20] == "wav"@);
    assert(binary_words()[21] == "flac"@);
    assert(binary_words()[22] == "ogg"@);
    assert(binary_words()[23] == "ttf"@);
    assert(binary_words()[24] == "otf"@);
    assert(binary_words()[25] == "woff"@);
    assert(binary_words()[26] == "woff2"@);
    if markdown_words().contains(w) {
        let i = choose|i: int| 0 <= i < markdown_words().len() && markdown_words()[i] == w;
        assert(0 <= i < 3);
    }
    if image_words().contains(w) {
        let i = choose|i: int| 0 <= i < image_words().len() && image_words()[i] == w;
        assert(0 <= i < 8);
    }
    if binary_words().contains(w) {
        let i = choose|i: int| 0 <= i < binary_words().len() && binary_words()[i] == w;
        assert(0 <= i < 27);
    }
}

/// An image is told to be what its extension says.
pub proof fn image_is_what_its_extension_says(p: Seq<char>, w: Seq<char>)
    requires
        extension(p) matches Some(e) && lowered(e) == w,
    ensures
        w == "png"@ ==> image_mime(p) == Some("image/png"@),
        w == "jpg"@ || w == "jpeg"@ ==> image_mime(p) == Some("image/jpeg"@),
        w == "gif"@ ==> image_mime(p) == Some("image/gif"@),
        w == "webp"@ ==> image_mime(p) == Some("image/webp"@),
        w == "bmp"@ ==> image_mime(p) == Some("image/bmp"@),
        w == "svg"@ ==> image_mime(p) == Some("image/svg+xml"@),
        w == "ico"@ ==> image_mime(p) == Some("image/x-icon"@),
        !(w == "png"@ || w == "jpg"@ || w == "jpeg"@ ||
            w == "gif"@ || w == "webp"@ || w == "bmp"@ ||
            w == "svg"@ || w == "ico"@) ==> image_mime(p) is None,
{
    reveal_strlit("png");
    reveal_strlit("jpg");
    reveal_strlit("jpeg");
    reveal_strlit("gif");
    reveal_strlit("webp");
    reveal_strlit("bmp");
    reveal_strlit("svg");
    reveal_strlit("ico");
    assert("png"@.len() == 3 && "png"@[0] == 'p');
    assert("jpg"@.len() == 3 && "jpg"@[0] == 'j');
    assert("jpeg"@.len() == 4 && "jpeg"@[0] == 'j');
    assert("gif"@.len() == 3 && "gif"@[0] == 'g');
    assert("webp"@.len() == 4 && "webp"@[0] == 'w');
    assert("bmp"@.len() == 3 && "bmp"@[0] == 'b');
    assert("svg"@.len() == 3 && "svg"@[0] == 's');
    assert("ico"@.len() == 3 && "ico"@[0] == 'i');
}

/// What is read of a file: of an image and a PDF the whole, unless it is larger than may be; of a text
/// its head first, whatever its size; of Markdown its text at once; of what is no text nothing.
pub proof fn size_decides_what_is_read(path: Seq<char>, size: u64, opts: PreviewOpts)
    ensures
        category(path) == PathCategory::Image && size <= opts.image_limit ==> after_size(
            path,
            size,
            opts,
        ) == (StepView::Whole { size }),
        category(path) == PathCategory::Image && size > opts.image_limit ==> after_size(
            path,
            size,
            opts,
        ) == StepView::Done(PreviewView::TooLarge { size, limit: opts.image_limit }),
        category(path) == PathCategory::Pdf && size <= opts.pdf_limit ==> after_size(
            path,
            size,
            opts,
        ) == (StepView::Whole { size }),
        category(path) == PathCategory::Pdf && size > opts.pdf_limit ==> after_size(
            path,
            size,
            opts,
        ) == StepView::Done(PreviewView::TooLarge { size, limit: opts.pdf_limit }),
        category(path) == PathCategory::Markdown ==> after_size(path, size, opts)
            == (StepView::Body { size }),
        category(path) == PathCategory::Text ==> after_size(path, size, opts) == (StepView::Head {
            size,
        }),
        category(path) == PathCategory::KnownBinary && size <= opts.text_limit ==> after_size(
            path,
            size,
            opts,
        ) == StepView::Done(PreviewView::Binary { size, mime: None }),
{
}

/// What is shown of a file on this machine is what was read of it: a text or Markdown its own, cut off
/// exactly where the file has more than the limit; an image or a PDF its bytes; a head with a zero byte
/// is no text, any other is read on; a directory is refused.
pub proof fn local_preview_shows_what_was_read(
    path: Seq<char>,
    opts: PreviewOpts,
    size: u64,
    data: Vec<u8>,
    total: u64,
)
    ensures
        ({
            let got = LocalRead::Bytes { data, total };
            &&& category(path) == PathCategory::Text ==> next_local(
                path,
                opts,
                StepView::Body { size },
                got,
            ) == Ok::<StepView, PreviewError>(
                StepView::Done(
                    PreviewView::Text {
                        content: lossy(data@),
                        language: language(path),
                        truncated: total > opts.text_limit,
                        size,
                    },
                ),
            )
            &&& category(path) == PathCategory::Markdown ==> next_local(
                path,
                opts,
                StepView::Body { size },
                got,
            ) == Ok::<StepView, PreviewError>(
                StepView::Done(
                    PreviewView::Markdown {
                        content: lossy(data@),
                        truncated: total > opts.text_limit,
                        size,
                    },
                ),
            )
            &&& category(path) == PathCategory::Image && image_mime(path) is Some ==> next_local(
                path,
                opts,
                StepView::Whole { size },
                got,
            ) == Ok::<StepView, PreviewError>(
                StepView::Done(
                    PreviewView::Image {
                        mime: image_mime(path)->0,
                        base64: encoded(data@),
                        size,
                    },
                ),
            )
            &&& category(path) == PathCategory::Pdf ==> next_local(
                path,
                opts,
                StepView::Whole { size },
                got,
            ) == Ok::<StepView, PreviewError>(
                StepView::Done(PreviewView::Pdf { base64: encoded(data@), size }),
            )
            &&& data@.contains(0u8) ==> next_local(path, opts, StepView::Head { size }, got) == Ok::<
                StepView,
                PreviewError,
            >(StepView::Done(PreviewView::Binary { size, mime: None }))
            &&& !data@.contains(0u8) ==> next_local(path, opts, StepView::Head { size }, got)
                == Ok::<StepView, PreviewError>(StepView::Body { size })
        }),
        next_local(path, opts, StepView::Size, LocalRead::Meta { is_dir: true, size }) == Err::<
            StepView,
            PreviewError,
        >(PreviewError::Directory),
        next_local(path, opts, StepView::Size, LocalRead::Meta { is_dir: false, size }) is Ok,
{
}

/// A file on a remote machine is shown as the same file here would be: each step that is told the same
/// of it leads to the same.
pub proof fn remote_preview_is_the_local_one(
    path: Seq<char>,
    opts: PreviewOpts,
    size: u64,
    data: Vec<u8>,
    total: u64,
    out: Seq<u8>,
)
    ensures
        unspaced(out) == encoded(data@) ==> next_remote(path, opts, StepView::Whole { size }, out)
            == next_local(path, opts, StepView::Whole { size }, LocalRead::Bytes { data, total }),
        unspaced(out) == encoded(data@) ==> next_remote(path, opts, StepView::Head { size }, out)
            == next_local(path, opts, StepView::Head { size }, LocalRead::Bytes { data, total }),
        unspaced(out) == encoded(data@) && total == size ==> next_remote(
            path,
            opts,
            StepView::Body { size },
            out,
        ) == next_local(path, opts, StepView::Body { size }, LocalRead::Bytes { data, total }),
        unsigned(trimmed(lossy(out)), u64::MAX as nat) == Some(size as nat) ==> next_remote(
            path,
            opts,
            StepView::Size,
            out,
        ) == next_local(path, opts, StepView::Size, LocalRead::Meta { is_dir: false, size }),
        unsigned(trimmed(lossy(out)), u64::MAX as nat) is None ==> next_remote(
            path,
            opts,
            StepView::Size,
            out,
        ) == Err::<StepView, PreviewError>(PreviewError::BadSize),
{
    encoded_is_read_back(data@);
}

/// What a remote machine sends is read without the spaces and line ends between, and nothing else of it
/// is lost.
pub proof fn only_spacing_is_left_out(a: Seq<u8>, b: u8)
    ensures
        b == 9 || b == 10 || b == 13 || b == 32 ==> unspaced(a.push(b)) == unspaced(a),
        !(b == 9 || b == 10 || b == 13 || b == 32) ==> unspaced(a.push(b)) == unspaced(a).push(
            b as char,
        ),
        unspaced(Seq::empty()) == Seq::<char>::empty(),
{
    assert(a.push(b).drop_last() =~= a);
}

} // verus!
