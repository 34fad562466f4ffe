//! The call path of a thread, and its text in a profile.

use crate::allocation::CallstackId;
use crate::callsite::{CallSiteId, FunctionLocations, LineNumberInfo, LocationText};
use crate::linecache::LineCacher;
use crate::text::{chars_of, decimal, join_strings, joined, push_chars, push_decimal};
use vstd::prelude::*;
use vstd::string::StringExecFns;

verus! {

/// The frames with the line of the innermost one set to `line`; as they are
/// where `line` is 0 or there is no frame.
pub open spec fn with_top_line(calls: Seq<CallSiteId>, line: u32) -> Seq<CallSiteId> {
    if line != 0 && calls.len() > 0 {
        calls.update(calls.len() - 1, calls.last().at_line(line))
    } else {
        calls
    }
}

/// The call path of one thread: its frames, outermost first. Beside them it
/// remembers the id that the path was last given and the line at which that
/// was, so that further allocations from that line need no lookup. Two call
/// paths are the same where their frames are.
#[derive(Debug)]
pub struct Callstack {
    calls: Vec<CallSiteId>,
    cached_callstack_id: Option<(u32, CallstackId)>,
}

impl View for Callstack {
    type V = Seq<CallSiteId>;

    /// The frames, outermost first.
    closed spec fn view(&self) -> Seq<CallSiteId> {
        self.calls@
    }
}

impl PartialEq for Callstack {
    /// Whether the two call paths have the same frames.
    fn eq(&self, other: &Callstack) -> (same: bool) {
        self.same_calls(other)
    }
}

impl vstd::std_specs::cmp::PartialEqSpecImpl for Callstack {
    open spec fn obeys_eq_spec() -> bool {
        true
    }

    open spec fn eq_spec(&self, other: &Callstack) -> bool {
        self@ == other@
    }
}

impl Eq for Callstack {

}

impl Clone for Callstack {
    /// A call path with the same frames that remembers the same.
    fn clone(&self) -> (copy: Self)
        ensures
            copy@ == self@,
            copy.cached() == self.cached(),
    {
        Callstack { calls: self.to_vec(), cached_callstack_id: self.cached_callstack_id }
    }
}

impl Callstack {
    /// The line and id that are remembered, if any.
    pub closed spec fn cached(&self) -> Option<(u32, CallstackId)> {
        self.cached_callstack_id
    }

    /// The id that is remembered for `line_number`, if any.
    pub open spec fn cached_for(&self, line_number: u32) -> Option<CallstackId> {
        match self.cached() {
            Some((line, id)) => if line == line_number { Some(id) } else { None },
            None => None,
        }
    }

    /// A call path without frames.
    pub fn new() -> (callstack: Callstack)
        ensures
            callstack@ == Seq::<CallSiteId>::empty(),
            callstack.cached().is_none(),
    {
        Callstack { calls: Vec::new(), cached_callstack_id: None }
    }

    /// The call path with the frames of `vec`.
    pub fn from_vec(vec: Vec<CallSiteId>) -> (callstack: Callstack)
        ensures
            callstack@ == vec@,
            callstack.cached().is_none(),
    {
        Self { calls: vec, cached_callstack_id: None }
    }

    /// The frames, outermost first.
    pub fn to_vec(&self) -> (vec: Vec<CallSiteId>)
        ensures
            vec@ == self@,
    {
        let mut vec: Vec<CallSiteId> = Vec::new();
        let mut idx: usize = 0;
        while idx < self.calls.len()
            invariant
                idx <= self.calls.len(),
                vec@ == self.calls@.take(idx as int),
            decreases self.calls.len() - idx,
        {
            vec.push(self.calls[idx]);
            idx += 1;
            proof {
                assert(vec@ =~= self.calls@.take(idx as int));
            }
        }
        proof {
            assert(self.calls@.take(idx as int) =~= self.calls@);
        }
        vec
    }

    /// The frames, outermost first.
    pub fn frames(&self) -> (frames: &Vec<CallSiteId>)
        ensures
            frames@ == self@,
    {
        &self.calls
    }

    /// Number of frames.
    pub fn len(&self) -> (n: usize)
        ensures
            n == self@.len(),
    {
        self.calls.len()
    }

    /// Whether the two call paths have the same frames.
    pub fn same_calls(&self, other: &Callstack) -> (same: bool)
        ensures
            same == (self@ == other@),
    {
        if self.calls.len() != other.calls.len() {
            return false;
        }
        let mut idx: usize = 0;
        while idx < self.calls.len()
            invariant
                idx <= self.calls.len(),
                self.calls.len() == other.calls.len(),
                self.calls@.take(idx as int) == other.calls@.take(idx as int),
            decreases self.calls.len() - idx,
        {
            if self.calls[idx] != other.calls[idx] {
                return false;
            }
            idx += 1;
            proof {
                assert(self.calls@.take(idx as int) =~= self.calls@.take(idx - 1).push(
                    self.calls@[idx - 1],
                ));
                assert(other.calls@.take(idx as int) =~= other.calls@.take(idx - 1).push(
                    other.calls@[idx - 1],
                ));
            }
        }
        proof {
            assert(self.calls@.take(idx as int) =~= self.calls@);
            assert(other.calls@.take(idx as int) =~= other.calls@);
        }
        true
    }

    /// Sets the line of the innermost frame, unless `line_number` is 0 or
    /// there is no frame.
    pub fn set_top_line(&mut self, line_number: u32)
        ensures
            final(self)@ == with_top_line(old(self)@, line_number),
            final(self).cached() == old(self).cached(),
    {
        let n = self.calls.len();
        if line_number != 0 && n > 0 {
            let function = self.calls[n - 1].function;
            self.calls[n - 1] = CallSiteId {
                function,
                line_number: LineNumberInfo::LineNumber(line_number),
            };
        }
    }

    /// Enters a call. The caller's line is known only now: where
    /// `parent_line_number` is not 0 it becomes the line of the frame that
    /// was innermost so far. Then the new frame is pushed, and what was
    /// remembered is forgotten.
    pub fn start_call(&mut self, parent_line_number: u32, callsite_id: CallSiteId)
        ensures
            final(self)@ == with_top_line(old(self)@, parent_line_number).push(callsite_id),
            final(self).cached().is_none(),
    {
        self.set_top_line(parent_line_number);
        self.calls.push(callsite_id);
        self.cached_callstack_id = None;
    }

    /// Leaves the innermost call, if there is one, and forgets what was
    /// remembered.
    pub fn finish_call(&mut self)
        ensures
            final(self)@ == (if old(self)@.len() > 0 {
                old(self)@.drop_last()
            } else {
                old(self)@
            }),
            final(self).cached().is_none(),
    {
        self.calls.pop();
        self.cached_callstack_id = None;
    }

    /// The id of the call path for an allocation made at `line_number`.
    ///
    /// Where an id is remembered for that line it is returned, and nothing
    /// changes. Else the innermost frame gets the line (unless that is 0),
    /// `get_callstack_id` is asked for the id of the path as it then stands,
    /// and line and id are remembered.
    pub fn id_for_new_allocation<F>(&mut self, line_number: u32, get_callstack_id: F) -> (id:
        CallstackId) where F: FnOnce(&Callstack) -> CallstackId
        requires
            old(self).cached_for(line_number).is_none() ==> forall|asked: Callstack|
                asked@ == with_top_line(old(self)@, line_number) && asked.cached() == old(
                    self,
                ).cached() ==> get_callstack_id.requires((&asked,)),
        ensures
            old(self).cached_for(line_number).is_some() ==> {
                &&& id == old(self).cached_for(line_number).unwrap()
                &&& final(self)@ == old(self)@
                &&& final(self).cached() == old(self).cached()
            },
            old(self).cached_for(line_number).is_none() ==> {
                &&& final(self)@ == with_top_line(old(self)@, line_number)
                &&& final(self).cached() == Some((line_number, id))
                &&& exists|asked: Callstack|
                    asked@ == final(self)@ && asked.cached() == old(self).cached()
                        && get_callstack_id.ensures((&asked,), id)
            },
    {
        if let Some((previous_line_number, callstack_id)) = self.cached_callstack_id {
            if line_number == previous_line_number {
                return callstack_id;
            }
        }
        self.set_top_line(line_number);
        let callstack_id = get_callstack_id(&*self);
        self.cached_callstack_id = Some((line_number, callstack_id));
        callstack_id
    }

    /// The id that is remembered for `line_number`, if any.
    pub fn cached_id(&self, line_number: u32) -> (id: Option<CallstackId>)
        ensures
            id == self.cached_for(line_number),
    {
        match self.cached_callstack_id {
            Some((previous_line_number, callstack_id)) => {
                if line_number == previous_line_number {
                    Some(callstack_id)
                } else {
                    None
                }
            },
            None => None,
        }
    }

    /// Remembers `id` as the id of the call path at `line_number`.
    pub fn remember_id(&mut self, line_number: u32, id: CallstackId)
        ensures
            final(self)@ == old(self)@,
            final(self).cached() == Some((line_number, id)),
    {
        self.cached_callstack_id = Some((line_number, id));
    }
}

/// The character that stands for `c` in a source excerpt: the profile's
/// format gives a meaning to the space and to the semicolon, so each has a
/// stand-in that is put back when the picture is drawn.
pub open spec fn excerpt_char(c: char) -> char {
    if c == ' ' {
        '\u{12e4}'
    } else if c == ';' {
        '\u{ff1b}'
    } else {
        c
    }
}

/// How many characters of `code` stand before its first line feed: all of
/// them where it holds none.
pub open spec fn line_end(code: Seq<char>) -> int
    decreases code.len(),
{
    if code.len() == 0 || code[0] == '\n' {
        0
    } else {
        1 + line_end(code.skip(1))
    }
}

/// The first line of `code`: what stands before its first line feed.
pub open spec fn first_line(code: Seq<char>) -> Seq<char> {
    code.take(line_end(code))
}

/// The source text `code` as it is shown behind a frame: its first line,
/// each space and semicolon replaced by its stand-in, and then the white
/// space at the end removed.
pub open spec fn excerpt(code: Seq<char>) -> Seq<char> {
    crate::text::trim_end(first_line(code).map_values(|c: char| excerpt_char(c)))
}

/// The first line ends within the text, and holds no line feed.
pub proof fn lemma_first_line(code: Seq<char>)
    ensures
        0 <= line_end(code) <= code.len(),
        forall|i: int| 0 <= i < line_end(code) ==> (#[trigger] code[i]) != '\n',
        line_end(code) < code.len() ==> code[line_end(code)] == '\n',
    decreases code.len(),
{
    if code.len() > 0 && code[0] != '\n' {
        let rest = code.skip(1);
        lemma_first_line(rest);
        assert forall|i: int| 0 <= i < line_end(code) implies (#[trigger] code[i]) != '\n' by {
            if i > 0 {
                assert(rest[i - 1] == code[i]);
            }
        }
        if line_end(code) < code.len() {
            assert(rest[line_end(rest)] == code[line_end(code)]);
        }
    }
}

/// The first line ends at `n` where a line feed stands there, or the text
/// ends there, and none stands before.
pub proof fn lemma_first_line_ends_at(code: Seq<char>, n: int)
    requires
        0 <= n <= code.len(),
        forall|i: int| 0 <= i < n ==> (#[trigger] code[i]) != '\n',
        n < code.len() ==> code[n] == '\n',
    ensures
        line_end(code) == n,
{
    lemma_first_line(code);
    let end = line_end(code);
    if end < n {
        assert(code[end] == '\n');
    } else if n < end {
        assert(code[n] == '\n');
    }
}

/// A line of 0 leaves every frame as it is.
pub proof fn lemma_zero_line_keeps_frames(calls: Seq<CallSiteId>)
    ensures
        with_top_line(calls, 0) == calls,
{
}

/// A line other than 0 changes the line of the innermost frame and nothing
/// else.
pub proof fn lemma_line_changes_top_only(calls: Seq<CallSiteId>, line: u32)
    requires
        calls.len() > 0,
        line != 0,
    ensures
        with_top_line(calls, line).len() == calls.len(),
        with_top_line(calls, line).drop_last() == calls.drop_last(),
        with_top_line(calls, line).last().function == calls.last().function,
        with_top_line(calls, line).last().line_number == LineNumberInfo::LineNumber(line),
{
    assert(with_top_line(calls, line).drop_last() =~= calls.drop_last());
}

/// What is cut off the end of a text is white space, and what stays does
/// not end in white space.
pub proof fn lemma_trim_end(text: Seq<char>)
    ensures
        crate::text::trim_end(text).len() <= text.len(),
        crate::text::trim_end(text) == text.take(crate::text::trim_end(text).len() as int),
        forall|i: int|
            crate::text::trim_end(text).len() <= i < text.len() ==> crate::text::is_whitespace(
                #[trigger] text[i],
            ),
        crate::text::trim_end(text).len() > 0 ==> !crate::text::is_whitespace(
            crate::text::trim_end(text).last(),
        ),
    decreases text.len(),
{
    if text.len() > 0 && crate::text::is_whitespace(text.last()) {
        let front = text.drop_last();
        lemma_trim_end(front);
        let kept = crate::text::trim_end(front);
        assert(kept =~= text.take(kept.len() as int));
        assert forall|i: int| kept.len() <= i < text.len() implies crate::text::is_whitespace(
            #[trigger] text[i],
        ) by {
            if i < front.len() {
                assert(front[i] == text[i]);
            }
        }
    } else {
        assert(text =~= text.take(text.len() as int));
    }
}

/// The excerpt of a source text holds no space, no semicolon and no line
/// feed.
pub proof fn lemma_excerpt_is_one_frame(code: Seq<char>)
    ensures
        forall|i: int| 0 <= i < excerpt(code).len() ==> (#[trigger] excerpt(code)[i]) != ' ',
        forall|i: int| 0 <= i < excerpt(code).len() ==> (#[trigger] excerpt(code)[i]) != ';',
        forall|i: int| 0 <= i < excerpt(code).len() ==> (#[trigger] excerpt(code)[i]) != '\n',
{
    lemma_first_line(code);
    let line = first_line(code);
    let shown = line.map_values(|c: char| excerpt_char(c));
    lemma_trim_end(shown);
    let kept = excerpt(code);
    assert forall|i: int| 0 <= i < kept.len() implies (#[trigger] kept[i]) != ' ' && kept[i]
        != ';' && kept[i] != '\n' by {
        assert(kept[i] == shown[i]);
        assert(shown[i] == excerpt_char(line[i]));
        assert(line[i] == code[i]);
    }
}

/// A frame as text: `file:line (function)`.
pub open spec fn frame_text(names: LocationText, line: u32) -> Seq<char> {
    names.1 + ":"@ + decimal(line as nat) + " ("@ + names.0 + ")"@
}

/// A frame as text, with the excerpt of its source line as a further frame
/// behind it where the text is meant for a picture.
pub open spec fn shown_frame<FL: FunctionLocations>(
    site: CallSiteId,
    functions: &FL,
    to_be_post_processed: bool,
    linecache: &LineCacher,
) -> Seq<char> {
    let names = functions.location(site.function);
    let line = site.line_number.line();
    if to_be_post_processed {
        frame_text(names, line) + ";\u{2800}"@ + excerpt(
            linecache.source_line(names.1, line as usize),
        )
    } else {
        frame_text(names, line)
    }
}

/// The frames as texts.
pub open spec fn shown_frames<FL: FunctionLocations>(
    calls: Seq<CallSiteId>,
    functions: &FL,
    to_be_post_processed: bool,
    linecache: &LineCacher,
) -> Seq<Seq<char>> {
    Seq::new(
        calls.len(),
        |i: int| shown_frame(calls[i], functions, to_be_post_processed, linecache),
    )
}

/// Whether a file is the module that starts a program by its name.
pub open spec fn is_runpy(filename: Seq<char>, runpy_path: Seq<char>) -> bool {
    filename == runpy_path || filename == "<frozen runpy>"@
}

/// Index of the first frame from `from` on that is not in the starting
/// module; the number of frames where there is none.
pub open spec fn first_outside_runpy<FL: FunctionLocations>(
    calls: Seq<CallSiteId>,
    functions: &FL,
    runpy_path: Seq<char>,
    from: int,
) -> int
    decreases calls.len() - from,
{
    if from < 0 || from >= calls.len() {
        calls.len() as int
    } else if !is_runpy(functions.location(calls[from].function).1, runpy_path) {
        from
    } else {
        first_outside_runpy(calls, functions, runpy_path, from + 1)
    }
}

/// Number of frames at the outer end that are left out of the text: those
/// of the starting module, up to the first frame of another file. Where
/// there is no frame of another file none is left out.
pub open spec fn runpy_prefix<FL: FunctionLocations>(
    calls: Seq<CallSiteId>,
    functions: &FL,
    runpy_path: Seq<char>,
) -> int {
    let first = first_outside_runpy(calls, functions, runpy_path, 0);
    if first >= calls.len() {
        0
    } else {
        first
    }
}

/// A call path as text: its frames but for the leading ones of the starting
/// module, joined by `separator`.
pub open spec fn callstack_text<FL: FunctionLocations>(
    calls: Seq<CallSiteId>,
    to_be_post_processed: bool,
    functions: &FL,
    separator: Seq<char>,
    runpy_path: Seq<char>,
    linecache: &LineCacher,
) -> Seq<char> {
    if calls.len() == 0 {
        "[No Python stack]"@
    } else {
        joined(
            shown_frames(
                calls.skip(runpy_prefix(calls, functions, runpy_path)),
                functions,
                to_be_post_processed,
                linecache,
            ),
            separator,
        )
    }
}

/// The text of a call path that is not meant for a picture does not depend
/// on the source lines.
pub proof fn lemma_plain_text_needs_no_source<FL: FunctionLocations>(
    calls: Seq<CallSiteId>,
    functions: &FL,
    separator: Seq<char>,
    runpy_path: Seq<char>,
    one: &LineCacher,
    other: &LineCacher,
)
    ensures
        callstack_text(calls, false, functions, separator, runpy_path, one) == callstack_text(
            calls,
            false,
            functions,
            separator,
            runpy_path,
            other,
        ),
{
    let shown = calls.skip(runpy_prefix(calls, functions, runpy_path));
    assert(shown_frames(shown, functions, false, one) =~= shown_frames(
        shown,
        functions,
        false,
        other,
    ));
}

/// Every frame names a function of the catalog.
pub open spec fn all_known<FL: FunctionLocations>(calls: Seq<CallSiteId>, functions: &FL) -> bool {
    forall|i: int| 0 <= i < calls.len() ==> functions.knows((#[trigger] calls[i]).function)
}

/// Number of frames at the outer end that are left out of the text.
pub fn runpy_prefix_length<FL: FunctionLocations>(
    calls: &Vec<CallSiteId>,
    functions: &FL,
    runpy_path: &str,
) -> (length: usize)
    requires
        all_known(calls@, functions),
    ensures
        length == runpy_prefix(calls@, functions, runpy_path@),
        length <= calls.len(),
{
    let runpy = runpy_path.to_owned();
    let frozen = "<frozen runpy>".to_owned();
    let mut length: usize = 0;
    while length < calls.len()
        invariant
            length <= calls.len(),
            all_known(calls@, functions),
            runpy@ == runpy_path@,
            frozen@ == "<frozen runpy>"@,
            first_outside_runpy(calls@, functions, runpy_path@, 0) == first_outside_runpy(
                calls@,
                functions,
                runpy_path@,
                length as int,
            ),
        decreases calls.len() - length,
    {
        assert(functions.knows(calls@[length as int].function));
        let (_, filename) = functions.get_function_and_filename(calls[length].function);
        let filename = filename.to_owned();
        if filename == runpy || filename == frozen {
            length += 1;
        } else {
            return length;
        }
    }
    0
}

/// Appends the excerpt of the source text `code`.
pub fn push_excerpt(text: &mut String, code: &str)
    ensures
        final(text)@ == old(text)@ + excerpt(code@),
{
    let code_chars = chars_of(code);
    let mut shown: Vec<char> = Vec::new();
    let mut idx: usize = 0;
    while idx < code_chars.len() && code_chars[idx] != '\n'
        invariant
            idx <= code_chars.len(),
            forall|i: int| 0 <= i < idx ==> (#[trigger] code_chars@[i]) != '\n',
            shown@ == code_chars@.take(idx as int).map_values(|c: char| excerpt_char(c)),
        decreases code_chars.len() - idx,
    {
        let c = code_chars[idx];
        let replaced = if c == ' ' {
            '\u{12e4}'
        } else if c == ';' {
            '\u{ff1b}'
        } else {
            c
        };
        shown.push(replaced);
        idx += 1;
        proof {
            assert(shown@ =~= code_chars@.take(idx as int).map_values(|c: char| excerpt_char(c)));
        }
    }
    proof {
        lemma_first_line_ends_at(code_chars@, idx as int);
    }
    let kept = crate::text::trimmed_len(&shown);
    push_chars(text, &shown, 0, kept);
    proof {
        assert(shown@.subrange(0, kept as int) =~= shown@.take(kept as int));
    }
}

impl Callstack {
    /// Whether every frame names a function of the catalog.
    pub fn is_known_in(&self, functions: &crate::callsite::VecFunctionLocations) -> (known: bool)
        ensures
            known == all_known(self@, functions),
    {
        let mut idx: usize = 0;
        while idx < self.calls.len()
            invariant
                idx <= self.calls.len(),
                forall|i: int| 0 <= i < idx ==> functions.knows((#[trigger] self@[i]).function),
            decreases self.calls.len() - idx,
        {
            if !functions.is_known(self.calls[idx].function) {
                assert(!functions.knows(self@[idx as int].function));
                return false;
            }
            idx += 1;
        }
        true
    }

    /// The call path as text: each frame as `file:line (function)`, the
    /// frames joined by `separator`. The leading frames of the starting
    /// module are left out. Where the text is meant for a picture, each frame
    /// is followed by a frame that shows its source line. A path without
    /// frames has a text of its own.
    pub fn as_string<FL: FunctionLocations>(
        &self,
        to_be_post_processed: bool,
        functions: &FL,
        separator: &str,
        runpy_path: &str,
        linecache: &LineCacher,
    ) -> (text: String)
        requires
            all_known(self@, functions),
        ensures
            text@ == callstack_text(
                self@,
                to_be_post_processed,
                functions,
                separator@,
                runpy_path@,
                linecache,
            ),
    {
        if self.calls.len() == 0 {
            return "[No Python stack]".to_owned();
        }
        let skip_prefix = runpy_prefix_length(&self.calls, functions, runpy_path);
        let ghost shown = self@.skip(skip_prefix as int);
        let mut frames: Vec<String> = Vec::new();
        let mut idx: usize = skip_prefix;
        while idx < self.calls.len()
            invariant
                skip_prefix <= idx <= self.calls.len(),
                all_known(self@, functions),
                shown == self@.skip(skip_prefix as int),
                frames.deep_view() == shown_frames(
                    shown.take(idx - skip_prefix),
                    functions,
                    to_be_post_processed,
                    linecache,
                ),
            decreases self.calls.len() - idx,
        {
            let id = self.calls[idx];
            assert(functions.knows(self@[idx as int].function));
            let (function, filename) = functions.get_function_and_filename(id.function);
            let line = id.line_number.get_line_number();
            let mut frame = String::new();
            frame.append(filename);
            frame.append(":");
            push_decimal(&mut frame, line as usize);
            frame.append(" (");
            frame.append(function);
            frame.append(")");
            if to_be_post_processed {
                let code = linecache.get_source_line(filename, line as usize);
                frame.append(";\u{2800}");
                push_excerpt(&mut frame, code.as_str());
            }
            proof {
                assert(shown[idx - skip_prefix] == self@[idx as int]);
                assert(frame@ =~= shown_frame(id, functions, to_be_post_processed, linecache));
            }
            let ghost before = frames.deep_view();
            frames.push(frame);
            idx += 1;
            proof {
                assert(frames.deep_view() =~= before.push(frame@));
                assert(frames.deep_view() =~= shown_frames(
                    shown.take(idx - skip_prefix),
                    functions,
                    to_be_post_processed,
                    linecache,
                ));
            }
        }
        proof {
            assert(shown.take(idx - skip_prefix) =~= shown);
        }
        join_strings(&frames, separator)
    }
}

} // verus!
