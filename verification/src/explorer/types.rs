//! What browsing shows.

use vstd::prelude::*;

verus! {

/// An entry of a directory.
#[derive(Debug)]
pub struct FileNode {
    pub name: String,
    /// The path from the root; empty for the root itself.
    pub path: String,
    pub is_dir: bool,
    pub size: Option<u64>,
    pub hidden: bool,
}

/// What is known of a file.
#[derive(Debug)]
pub struct FileMeta {
    pub size: u64,
    pub mime: Option<String>,
    pub is_binary: bool,
}

/// How large a file may be that is shown.
#[derive(Clone, Copy, Debug)]
pub struct PreviewOpts {
    pub text_limit: u64,
    pub image_limit: u64,
    pub pdf_limit: u64,
}

impl Default for PreviewOpts {
    fn default() -> (r: PreviewOpts)
        ensures
            r.text_limit == 5 * 1024 * 1024,
            r.image_limit == 8 * 1024 * 1024,
            r.pdf_limit == 25 * 1024 * 1024,
    {
        PreviewOpts {
            text_limit: 5 * 1024 * 1024,
            image_limit: 8 * 1024 * 1024,
            pdf_limit: 25 * 1024 * 1024,
        }
    }
}

/// What is shown of a file.
#[allow(inconsistent_fields)]
#[derive(Debug)]
pub enum Preview {
    Text { content: String, language: Option<String>, truncated: bool, size: u64 },
    Markdown { content: String, truncated: bool, size: u64 },
    Image { mime: String, base64: String, size: u64 },
    Pdf { base64: String, size: u64 },
    Binary { size: u64, mime: Option<String> },
    TooLarge { size: u64, limit: u64 },
}

/// How many hits a search lists.
#[derive(Clone, Copy, Debug)]
pub struct SearchOpts {
    pub max_results: usize,
}

impl Default for SearchOpts {
    fn default() -> (r: SearchOpts)
        ensures
            r.max_results == 500,
    {
        SearchOpts { max_results: 500 }
    }
}

/// A line that a search found.
#[derive(Debug)]
pub struct SearchHit {
    pub path: String,
    pub line_number: u64,
    pub line: String,
    pub match_start: usize,
    pub match_end: usize,
}

/// What came of copying.
#[derive(Debug)]
pub struct CopySummary {
    /// How many sources were copied; a directory counts once.
    pub copied: usize,
    pub failed: Vec<CopyFailure>,
    /// Where to, from the root.
    pub dest_rel: String,
}

/// A source that was not copied, and why.
#[derive(Debug)]
pub struct CopyFailure {
    pub source: String,
    pub error: String,
}

/// Where a file was saved.
#[derive(Debug)]
pub struct DownloadResult {
    pub saved_path: String,
}

} // verus!
