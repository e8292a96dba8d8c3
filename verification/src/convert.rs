//! Options of the recording converter and renderer, and the choice of the
//! output format.
use vstd::prelude::*;

verus! {

/// The format of a recording to write
#[derive(Debug, Clone, Copy, PartialEq, Eq, Structural)]
pub enum Format {
    /// Decided by the file name
    Guess,
    Binary,
    Text,
}

/// What to convert, and to what
pub struct ConvertRecOpts<'a> {
    pub input_file: &'a str,
    pub output_file: &'a str,
    pub output_format: Format,
}

/// What to render
pub struct RenderOpts<'a> {
    pub input_file: &'a str,
}

/// Whether a file name calls for the text format: standard output (`-`) or
/// a name ending in `.dptxt`
pub open spec fn is_text_name(name: Seq<char>) -> bool {
    name == "-"@ || (name.len() >= 6 && name.subrange(name.len() - 6, name.len() as int)
        == ".dptxt"@)
}

/// The format a recording is written in: the one asked for, or when it is
/// `Guess`, text for standard output and `.dptxt` files and binary otherwise
pub fn output_format(filename: &str, format: Format) -> (r: Format)
    ensures
        r != Format::Guess,
        format != Format::Guess ==> r == format,
        format == Format::Guess ==> (r == Format::Text <==> is_text_name(filename@)),
{
    match format {
        Format::Binary => Format::Binary,
        Format::Text => Format::Text,
        Format::Guess => {
            let chars = crate::protocol::textfmt::str_chars(filename);
            let dash = crate::protocol::textfmt::str_chars("-");
            let ext = crate::protocol::textfmt::str_chars(".dptxt");
            let n = chars.len();
            let is_text = if crate::protocol::textfmt::chars_eq(chars.as_slice(), dash.as_slice()) {
                true
            } else if n >= 6 {
                let tail = vstd::slice::slice_subrange(chars.as_slice(), n - 6, n);
                crate::protocol::textfmt::chars_eq(tail, ext.as_slice())
            } else {
                false
            };
            proof {
                reveal_strlit(".dptxt");
            }
            if is_text {
                Format::Text
            } else {
                Format::Binary
            }
        },
    }
}

} // verus!
