//! Configuration for the encoder and the decoder.

use vstd::prelude::*;

verus! {

/// Delimiter separating array elements, both in inline rows and in
/// tabular rows.
#[derive(Debug, Clone, Copy, PartialEq, Eq, Structural)]
pub enum Delimiter {
    /// Comma: `items[3]: a,b,c`
    Comma,
    /// Tab: `items[3]\t: a\tb\tc`
    Tab,
    /// Pipe: `items[3]|: a|b|c`
    Pipe,
}

/// The character that separates cells for this delimiter.
pub open spec fn delim_char(d: Delimiter) -> char {
    match d {
        Delimiter::Comma => ',',
        Delimiter::Tab => '\t',
        Delimiter::Pipe => '|',
    }
}

/// The marker of this delimiter inside an array header: nothing for the
/// comma, the delimiter character itself for tab and pipe.
pub open spec fn delim_marker(d: Delimiter) -> Seq<char> {
    match d {
        Delimiter::Comma => Seq::empty(),
        Delimiter::Tab => seq!['\t'],
        Delimiter::Pipe => seq!['|'],
    }
}

impl Delimiter {
    /// The delimiter as a character.
    pub fn as_char(&self) -> (r: char)
        ensures
            r == delim_char(*self),
    {
        match self {
            Delimiter::Comma => ',',
            Delimiter::Tab => '\t',
            Delimiter::Pipe => '|',
        }
    }

    /// The delimiter as a string slice.
    pub fn as_str(&self) -> (r: &'static str)
        ensures
            r@ == seq![delim_char(*self)],
    {
        proof {
            reveal_strlit(",");
            reveal_strlit("\t");
            reveal_strlit("|");
        }
        let r = match self {
            Delimiter::Comma => ",",
            Delimiter::Tab => "\t",
            Delimiter::Pipe => "|",
        };
        proof {
            assert(r@ =~= seq![delim_char(*self)]);
        }
        r
    }

    /// The marker that appears in array headers.
    pub fn header_marker(&self) -> (r: &'static str)
        ensures
            r@ == delim_marker(*self),
    {
        proof {
            reveal_strlit("");
            reveal_strlit("\t");
            reveal_strlit("|");
        }
        let r = match self {
            Delimiter::Comma => "",
            Delimiter::Tab => "\t",
            Delimiter::Pipe => "|",
        };
        proof {
            assert(r@ =~= delim_marker(*self));
        }
        r
    }
}

/// Whether the encoder compresses chains of single-key objects into
/// dotted paths.
#[derive(Debug, Clone, Copy, PartialEq, Eq, Structural)]
pub enum KeyFolding {
    /// No path compression.
    Off,
    /// Compress nested object paths when it is safe.
    Safe,
}

/// Whether the decoder expands dotted keys into nested objects.
#[derive(Debug, Clone, Copy, PartialEq, Eq, Structural)]
pub enum PathExpansion {
    /// No path expansion.
    Off,
    /// Expand dotted paths when it is safe.
    Safe,
}

/// Options controlling the encoder.
#[derive(Debug, Clone, Copy)]
pub struct EncoderOptions {
    /// Number of spaces per indentation level.
    pub indent: usize,
    /// Delimiter for array elements.
    pub delimiter: Delimiter,
    /// Whether to compress nested object paths.
    pub key_folding: KeyFolding,
    /// Largest number of path segments a folded key may have.
    pub flatten_depth: usize,
}

impl Default for EncoderOptions {
    /// Two-space indentation, comma delimiter, no folding, unbounded
    /// folding depth.
    fn default() -> (r: EncoderOptions)
        ensures
            r.indent == 2,
            r.delimiter == Delimiter::Comma,
            r.key_folding == KeyFolding::Off,
            r.flatten_depth == usize::MAX,
    {
        EncoderOptions {
            indent: 2,
            delimiter: Delimiter::Comma,
            key_folding: KeyFolding::Off,
            flatten_depth: usize::MAX,
        }
    }
}

/// Options controlling the decoder.
#[derive(Debug, Clone, Copy)]
pub struct DecoderOptions {
    /// Expected number of spaces per indentation level.
    pub indent: usize,
    /// Strict validation: indentation multiples, no tabs in indentation,
    /// no blank lines inside arrays, expansion conflicts are errors.
    pub strict: bool,
    /// Whether to expand dotted keys into nested objects.
    pub expand_paths: PathExpansion,
}

impl Default for DecoderOptions {
    /// Two-space indentation, lenient, no path expansion.
    fn default() -> (r: DecoderOptions)
        ensures
            r.indent == 2,
            r.strict == false,
            r.expand_paths == PathExpansion::Off,
    {
        DecoderOptions { indent: 2, strict: false, expand_paths: PathExpansion::Off }
    }
}

} // verus!
