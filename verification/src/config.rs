//! The configuration of a scan, and the policy on the head budget.
//!
//! Sizes are read from text by the `humanize_rs` crate ("10", "4KiB", "2 MB").

use vstd::prelude::*;
use vstd::utf8::is_ascii_chars;
use humanize_rs::bytes::Bytes;

verus! {

/// The smallest head budget that is taken as given.
pub const MIN_HEAD: usize = 1000;

/// The head budget that replaces one that is too small.
pub const DEFAULT_HEAD: usize = 1024;

/// What drives a scan.
#[derive(Clone, Copy, Debug, PartialEq, Eq, Structural)]
pub struct Config {
    /// Files smaller than this many bytes are left out.
    pub min_size: usize,
    /// The number of leading bytes of each file that its checksum covers;
    /// zero means the whole file.
    pub head_bytes: usize,
    /// The number of fingerprints that two directories must share to be
    /// reported.
    pub min_intersection: usize,
    /// Whether the head budget asked for was too small and was replaced; the
    /// caller warns of it once.
    pub head_promoted: bool,
}

/// Why a configuration was refused.
#[derive(Clone, Copy, Debug, PartialEq, Eq, Structural)]
pub enum ConfigError {
    /// The minimum size is not a size.
    InvalidMinSize,
    /// The head budget is not a size.
    InvalidHead,
}

/// The number of bytes that `humanize_rs` reads a text as, where it reads it
/// as a size that fits in 64 bits.
pub uninterp spec fn parsed_size(text: Seq<char>) -> Option<u64>;

/// `<humanize_rs::bytes::Bytes<u64> as FromStr>::from_str` followed by
/// `Bytes::size`: the size that the text stands for, or nothing where the
/// crate refuses the text. The crate splits the text at a character count
/// that it uses as a byte offset, which is only safe for ASCII text.
#[verifier::external_body]
fn parse_bytes(text: &str) -> (size: Option<u64>)
    requires
        is_ascii_chars(text@),
    ensures
        size == parsed_size(text@),
{
    match text.parse::<Bytes<u64>>() {
        Ok(bytes) => Some(bytes.size()),
        Err(_) => None,
    }
}

/// A parsed size as a `usize`, where it fits in one.
pub open spec fn fitted(parsed: Option<u64>) -> Option<usize> {
    match parsed {
        Some(n) => if n <= usize::MAX {
            Some(n as usize)
        } else {
            None
        },
        None => None,
    }
}

/// The size that a text stands for: what `humanize_rs` reads it as, where the
/// text is ASCII and the size fits in a `usize`.
pub open spec fn size_of_text(text: Seq<char>) -> Option<usize> {
    if is_ascii_chars(text) {
        fitted(parsed_size(text))
    } else {
        None
    }
}

/// The head budget that is used where `head` was asked for: a budget that is
/// not zero but below `MIN_HEAD` is replaced by `DEFAULT_HEAD`.
pub open spec fn effective_head(head: usize) -> usize {
    if 0 < head < MIN_HEAD {
        DEFAULT_HEAD
    } else {
        head
    }
}

/// The configuration for the given settings.
pub open spec fn configured(min_size: usize, head: usize, min_intersection: usize) -> Config {
    Config {
        min_size,
        head_bytes: effective_head(head),
        min_intersection,
        head_promoted: 0 < head < MIN_HEAD,
    }
}

/// The configuration for settings of which the two sizes may have been
/// refused: the minimum size is looked at first.
pub open spec fn configured_from(
    min_size: Option<usize>,
    head: Option<usize>,
    min_intersection: usize,
) -> Result<Config, ConfigError> {
    match min_size {
        None => Err(ConfigError::InvalidMinSize),
        Some(min_size) => match head {
            None => Err(ConfigError::InvalidHead),
            Some(head) => Ok(configured(min_size, head, min_intersection)),
        },
    }
}

/// A parsed size as a `usize`, where it fits in one.
pub fn fit_size(parsed: Option<u64>) -> (size: Option<usize>)
    ensures
        size == fitted(parsed),
{
    match parsed {
        Some(n) => if n <= usize::MAX as u64 {
            Some(n as usize)
        } else {
            None
        },
        None => None,
    }
}

/// Reads a size from text.
pub fn parse_size(text: &str) -> (size: Option<usize>)
    ensures
        size == size_of_text(text@),
{
    if text.is_ascii() {
        fit_size(parse_bytes(text))
    } else {
        None
    }
}

impl Config {
    /// The configuration for the given settings, the head budget being
    /// replaced where it is too small.
    pub fn new(min_size: usize, head: usize, min_intersection: usize) -> (config: Config)
        ensures
            config == configured(min_size, head, min_intersection),
    {
        if 0 < head && head < MIN_HEAD {
            Config { min_size, head_bytes: DEFAULT_HEAD, min_intersection, head_promoted: true }
        } else {
            Config { min_size, head_bytes: head, min_intersection, head_promoted: false }
        }
    }

    /// The configuration for settings of which the two sizes may have been
    /// refused.
    pub fn from_sizes(min_size: Option<usize>, head: Option<usize>, min_intersection: usize) -> (r:
        Result<Config, ConfigError>)
        ensures
            r == configured_from(min_size, head, min_intersection),
    {
        match min_size {
            None => Err(ConfigError::InvalidMinSize),
            Some(min_size) => match head {
                None => Err(ConfigError::InvalidHead),
                Some(head) => Ok(Config::new(min_size, head, min_intersection)),
            },
        }
    }

    /// The configuration for settings of which the two sizes are given as
    /// text.
    pub fn parse(min_size: &str, head: &str, min_intersection: usize) -> (r: Result<
        Config,
        ConfigError,
    >)
        ensures
            r == configured_from(size_of_text(min_size@), size_of_text(head@), min_intersection),
    {
        Config::from_sizes(parse_size(min_size), parse_size(head), min_intersection)
    }

    /// Whether a file of `size` bytes is large enough to be indexed.
    pub fn admits(&self, size: usize) -> (yes: bool)
        ensures
            yes == (size >= self.min_size),
    {
        size >= self.min_size
    }
}

/// A head budget that is not zero but below `MIN_HEAD` gives the
/// configuration that `DEFAULT_HEAD` gives, but for the mark that the budget
/// was replaced.
pub proof fn lemma_small_head_is_default(min_size: usize, head: usize, min_intersection: usize)
    requires
        0 < head < MIN_HEAD,
    ensures
        configured(min_size, head, min_intersection).head_promoted,
        !configured(min_size, DEFAULT_HEAD, min_intersection).head_promoted,
        configured(min_size, head, min_intersection) == (Config {
            head_promoted: true,
            ..configured(min_size, DEFAULT_HEAD, min_intersection)
        }),
{
}

} // verus!
