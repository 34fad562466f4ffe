//! The drawing of a flame graph: what the renderer is asked for, and what is
//! made of what it returns.

use crate::text::chars_of;
use vstd::prelude::*;
use vstd::string::{StrSliceExecFns, StringExecFns};
use vstd::utf8::{decode_utf8, encode_utf8, valid_utf8};

verus! {

/// What stands in a picture where its subtitle belongs: the renderer takes a
/// plain subtitle only, so the real one, which has markup, is put in
/// afterwards.
pub const SUBTITLE_PLACEHOLDER: &'static str = "__FIL-SUBTITLE-HERE__";

/// What the renderer is asked for.
pub struct FlamegraphOptions {
    pub title: String,
    pub count_name: String,
    pub font_size: usize,
    pub font_type: String,
    pub frame_height: usize,
    pub reverse_stack_order: bool,
    pub color_diffusion: bool,
    /// Whether the root is drawn at the top.
    pub inverted: bool,
    /// Narrowest frame that is drawn, in tenths of a percent of the width.
    pub min_width_tenths: u32,
    pub pretty_xml: bool,
    pub subtitle: Option<String>,
}

/// The title of a picture: the reversed one says that it is.
pub open spec fn full_title(title: Seq<char>, reversed: bool) -> Seq<char> {
    if reversed {
        title + ", Reversed"@
    } else {
        title
    }
}

/// What the renderer is asked for: the title, with a note where the stacks
/// are reversed; the name of what is counted; root at the top, frames 22
/// high, monospace type of size 16, frames below 0.2% of the width left
/// out. A picture that will be post-processed gets the placeholder as its
/// subtitle.
pub fn flamegraph_options(
    reversed: bool,
    title: &str,
    count_name: &str,
    to_be_post_processed: bool,
) -> (options: FlamegraphOptions)
    ensures
        options.title@ == full_title(title@, reversed),
        options.count_name@ == count_name@,
        options.font_size == 16,
        options.font_type@ == "monospace"@,
        options.frame_height == 22,
        options.reverse_stack_order == reversed,
        options.color_diffusion,
        options.inverted,
        options.min_width_tenths == 2,
        options.pretty_xml,
        options.subtitle.is_some() == to_be_post_processed,
        to_be_post_processed ==> options.subtitle.unwrap()@ == SUBTITLE_PLACEHOLDER@,
{
    let mut full = title.to_owned();
    if reversed {
        full.append(", Reversed");
    }
    FlamegraphOptions {
        title: full,
        count_name: count_name.to_owned(),
        font_size: 16,
        font_type: "monospace".to_owned(),
        frame_height: 22,
        reverse_stack_order: reversed,
        color_diffusion: true,
        inverted: true,
        min_width_tenths: 2,
        // Maybe disable this some day; but for now it makes debugging much
        // easier:
        pretty_xml: true,
        subtitle: if to_be_post_processed {
            // Can't put structured text into subtitle, so have to do a hack.
            Some(SUBTITLE_PLACEHOLDER.to_owned())
        } else {
            None
        },
    }
}

/// The profiles that are written.
#[derive(Clone, Copy, Debug, PartialEq, Eq, Structural)]
pub enum Profile {
    /// The memory at its peak.
    PeakMemory,
    /// The memory when it ran out.
    OutOfMemory,
    /// What the threads were doing.
    Performance,
}

impl Profile {
    /// The name that the files of the profile begin with.
    pub open spec fn spec_base_filename(self) -> Seq<char> {
        match self {
            Profile::PeakMemory => "peak-memory"@,
            Profile::OutOfMemory => "out-of-memory"@,
            Profile::Performance => "performance"@,
        }
    }

    /// The name that the files of the profile begin with.
    pub fn base_filename(self) -> (name: &'static str)
        ensures
            name@ == self.spec_base_filename(),
    {
        match self {
            Profile::PeakMemory => "peak-memory",
            Profile::OutOfMemory => "out-of-memory",
            Profile::Performance => "performance",
        }
    }

    /// The title of the pictures of the profile.
    pub fn title(self) -> (title: &'static str)
        ensures
            title@ == (match self {
                Profile::PeakMemory => "Peak Tracked Memory Usage"@,
                Profile::OutOfMemory => "Current allocations at out-of-memory time"@,
                Profile::Performance => "Performance: Combined per-thread runtime"@,
            }),
    {
        match self {
            Profile::PeakMemory => "Peak Tracked Memory Usage",
            Profile::OutOfMemory => "Current allocations at out-of-memory time",
            Profile::Performance => "Performance: Combined per-thread runtime",
        }
    }

    /// What the profile counts.
    pub fn count_name(self) -> (name: &'static str)
        ensures
            name@ == (match self {
                Profile::Performance => "samples"@,
                _ => "bytes"@,
            }),
    {
        match self {
            Profile::Performance => "samples",
            _ => "bytes",
        }
    }

    /// Whether the profile shows the memory at its peak rather than the
    /// live memory.
    pub fn shows_peak(self) -> (peak: bool)
        ensures
            peak == (self == Profile::PeakMemory),
    {
        match self {
            Profile::PeakMemory => true,
            _ => false,
        }
    }

    /// Whether the pictures of the profile show source lines, and so are
    /// post-processed. There is no asking for source lines once memory has
    /// run out.
    pub fn is_post_processed(self) -> (post_processed: bool)
        ensures
            post_processed == (self != Profile::OutOfMemory),
    {
        match self {
            Profile::OutOfMemory => false,
            _ => true,
        }
    }
}

/// The files of one profile, by name.
pub struct OutputFiles {
    /// The lines without source code, for tests and other tools.
    pub raw: String,
    /// The lines with source code: the input of the pictures, which is
    /// removed once they are drawn.
    pub raw_with_source: String,
    /// The picture.
    pub svg: String,
    /// The picture with the stacks reversed.
    pub reversed_svg: String,
}

/// The names of the files of the profile called `base_filename`.
pub fn output_files(base_filename: &str) -> (files: OutputFiles)
    ensures
        files.raw@ == base_filename@ + ".prof"@,
        files.raw_with_source@ == base_filename@ + "-source.prof"@,
        files.svg@ == base_filename@ + ".svg"@,
        files.reversed_svg@ == base_filename@ + "-reversed.svg"@,
{
    OutputFiles {
        raw: base_filename.to_owned().concat(".prof"),
        raw_with_source: base_filename.to_owned().concat("-source.prof"),
        svg: base_filename.to_owned().concat(".svg"),
        reversed_svg: base_filename.to_owned().concat("-reversed.svg"),
    }
}

/// Whether `pattern` stands in `text` at `at`.
pub open spec fn occurs_at(text: Seq<char>, pattern: Seq<char>, at: int) -> bool {
    0 <= at && at + pattern.len() <= text.len() && text.subrange(at, at + pattern.len())
        == pattern
}

/// The text from `from` on with `with` in place of every occurrence of
/// `pattern`, the occurrences taken from left to right, none of them
/// overlapping the one before. An empty pattern occurs nowhere.
pub open spec fn replaced(
    text: Seq<char>,
    pattern: Seq<char>,
    with: Seq<char>,
    from: int,
) -> Seq<char>
    decreases text.len() - from,
{
    if from < 0 || from >= text.len() {
        Seq::<char>::empty()
    } else if pattern.len() > 0 && occurs_at(text, pattern, from) {
        with + replaced(text, pattern, with, from + pattern.len())
    } else {
        seq![text[from]] + replaced(text, pattern, with, from + 1)
    }
}

/// What a character of a drawn picture stands for: the stand-ins of the
/// semicolon and the space are put back (the space as one that does not
/// break), and the mark that kept empty frames from vanishing goes.
pub open spec fn restored_char(c: char) -> Seq<char> {
    if c == '\u{ff1b}' {
        seq![';']
    } else if c == '\u{12e4}' {
        seq!['\u{a0}']
    } else if c == '\u{2800}' {
        Seq::<char>::empty()
    } else {
        seq![c]
    }
}

/// The text with every character replaced by what it stands for.
pub open spec fn restored(text: Seq<char>) -> Seq<char>
    decreases text.len(),
{
    if text.len() == 0 {
        Seq::<char>::empty()
    } else {
        restored(text.drop_last()) + restored_char(text.last())
    }
}

/// The picture as it is handed out: the subtitle in place of its
/// placeholder, and then every stand-in replaced by what it stands for.
pub open spec fn post_processed(svg: Seq<char>, subtitle: Option<Seq<char>>) -> Seq<char> {
    restored(
        match subtitle {
            Some(subtitle) => replaced(svg, SUBTITLE_PLACEHOLDER@, subtitle, 0),
            None => svg,
        },
    )
}

/// Whether `pattern` stands in `text` at `at`.
fn matches_at(text: &Vec<char>, pattern: &Vec<char>, at: usize) -> (found: bool)
    requires
        at <= text.len(),
    ensures
        found == occurs_at(text@, pattern@, at as int),
{
    if pattern.len() > text.len() - at {
        return false;
    }
    let mut k: usize = 0;
    while k < pattern.len()
        invariant
            k <= pattern.len(),
            at + pattern.len() <= text.len(),
            text@.subrange(at as int, at + k) == pattern@.take(k as int),
        decreases pattern.len() - k,
    {
        if text[at + k] != pattern[k] {
            proof {
                assert(text@.subrange(at as int, at + pattern.len())[k as int] == text@[at + k]);
            }
            return false;
        }
        k += 1;
        proof {
            assert(text@.subrange(at as int, at + k) =~= text@.subrange(at as int, at + k - 1).push(
                text@[at + k - 1],
            ));
            assert(pattern@.take(k as int) =~= pattern@.take(k - 1).push(pattern@[k - 1]));
        }
    }
    proof {
        assert(pattern@.take(k as int) =~= pattern@);
    }
    true
}

/// The text with `with` in place of every occurrence of `pattern`.
pub fn replace_all(text: &Vec<char>, pattern: &Vec<char>, with: &Vec<char>) -> (out: Vec<char>)
    ensures
        out@ == replaced(text@, pattern@, with@, 0),
{
    let mut out: Vec<char> = Vec::new();
    let mut i: usize = 0;
    while i < text.len()
        invariant
            i <= text.len(),
            out@ + replaced(text@, pattern@, with@, i as int) == replaced(
                text@,
                pattern@,
                with@,
                0,
            ),
        decreases text.len() - i,
    {
        let ghost so_far = out@;
        if pattern.len() > 0 && matches_at(text, pattern, i) {
            let mut k: usize = 0;
            while k < with.len()
                invariant
                    k <= with.len(),
                    out@ == so_far + with@.take(k as int),
                decreases with.len() - k,
            {
                out.push(with[k]);
                k += 1;
                proof {
                    assert(out@ =~= so_far + with@.take(k as int));
                }
            }
            proof {
                assert(with@.take(k as int) =~= with@);
                assert((so_far + with@) + replaced(text@, pattern@, with@, i + pattern.len())
                    =~= so_far + (with@ + replaced(text@, pattern@, with@, i + pattern.len())));
            }
            i += pattern.len();
        } else {
            out.push(text[i]);
            proof {
                assert(so_far.push(text@[i as int]) + replaced(text@, pattern@, with@, i + 1)
                    =~= so_far + (seq![text@[i as int]] + replaced(
                    text@,
                    pattern@,
                    with@,
                    i + 1,
                )));
            }
            i += 1;
        }
    }
    proof {
        assert(out@ + Seq::<char>::empty() =~= out@);
    }
    out
}

/// The picture as it is handed out.
pub fn post_process_svg(svg: &str, subtitle: Option<&str>) -> (out: String)
    ensures
        out@ == post_processed(
            svg@,
            match subtitle {
                Some(subtitle) => Some(subtitle@),
                None => None,
            },
        ),
{
    let data = chars_of(svg);
    // Replace with real subtitle.
    let data = match subtitle {
        Some(subtitle) => replace_all(&data, &chars_of(SUBTITLE_PLACEHOLDER), &chars_of(subtitle)),
        None => data,
    };
    let mut out = String::new();
    let mut i: usize = 0;
    proof {
        assert(data@.take(0) =~= Seq::<char>::empty());
    }
    while i < data.len()
        invariant
            i <= data.len(),
            out@ == restored(data@.take(i as int)),
        decreases data.len() - i,
    {
        let c = data[i];
        proof {
            assert(data@.take(i + 1).drop_last() =~= data@.take(i as int));
            assert(data@.take(i + 1).last() == c);
        }
        if c == '\u{ff1b}' {
            // Restore normal semi-colons.
            crate::text::string_push(&mut out, ';');
        } else if c == '\u{12e4}' {
            // Restore (non-breaking) spaces.
            crate::text::string_push(&mut out, '\u{a0}');
        } else if c == '\u{2800}' {
            // Get rid of empty-line markers.
            proof {
                assert(out@ + Seq::<char>::empty() =~= out@);
            }
        } else {
            crate::text::string_push(&mut out, c);
        }
        i += 1;
    }
    proof {
        assert(data@.take(i as int) =~= data@);
    }
    out
}

/// Why there is no picture.
#[derive(Debug)]
pub enum FlamegraphError {
    /// The renderer failed, and said this.
    Render(String),
    /// What the renderer returned is no text.
    NotUtf8,
}

/// `String::from_utf8`: the text that the bytes encode, where they are
/// UTF-8, and nothing where they are not.
#[verifier::external_body]
fn string_from_utf8(bytes: Vec<u8>) -> (text: Option<String>)
    ensures
        text.is_some() == valid_utf8(bytes@),
        text.is_some() ==> text.unwrap()@ == decode_utf8(bytes@),
{
    String::from_utf8(bytes).ok()
}

/// What is made of what the renderer returned. Its failure is passed on. A
/// picture that needs no post-processing is passed on as it is. One that
/// does must be text, and is handed out post-processed.
pub fn finish_flamegraph(
    rendered: Result<Vec<u8>, String>,
    to_be_post_processed: bool,
    subtitle: Option<&str>,
) -> (svg: Result<Vec<u8>, FlamegraphError>)
    ensures
        match rendered {
            Err(message) => svg == Err::<Vec<u8>, FlamegraphError>(
                FlamegraphError::Render(message),
            ),
            Ok(output) => if !to_be_post_processed {
                svg == Ok::<Vec<u8>, FlamegraphError>(output)
            } else if !valid_utf8(output@) {
                svg == Err::<Vec<u8>, FlamegraphError>(FlamegraphError::NotUtf8)
            } else {
                svg.is_ok() && svg.unwrap()@ == encode_utf8(
                    post_processed(
                        decode_utf8(output@),
                        match subtitle {
                            Some(subtitle) => Some(subtitle@),
                            None => None,
                        },
                    ),
                )
            },
        },
{
    match rendered {
        Err(message) => Err(FlamegraphError::Render(message)),
        Ok(output) => {
            if to_be_post_processed {
                match string_from_utf8(output) {
                    Some(data) => {
                        let data = post_process_svg(data.as_str(), subtitle);
                        Ok(data.as_str().as_bytes_vec())
                    },
                    None => Err(FlamegraphError::NotUtf8),
                }
            } else {
                Ok(output)
            }
        },
    }
}

} // verus!
