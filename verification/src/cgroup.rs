//! The control groups of a process, as the kernel lists them.
//!
//! The kernel lists them one to a line, each line as
//! `hierarchy:subsystems:path`, the subsystems separated by commas.

use crate::text::{chars_of, push_chars};
use vstd::prelude::*;

verus! {

/// Index of the first `c` in `text[from..to]`; `to` where there is none.
pub open spec fn next_char(text: Seq<char>, c: char, from: int, to: int) -> int
    decreases to - from,
{
    if from >= to {
        to
    } else if text[from] == c {
        from
    } else {
        next_char(text, c, from + 1, to)
    }
}

/// Where the line that starts at `start` stops: before the line feed that
/// ends it, and before a carriage return in front of that line feed.
pub open spec fn line_stop(text: Seq<char>, start: int) -> int {
    let end = next_char(text, '\n', start, text.len() as int);
    if end < text.len() && end > start && text[end - 1] == '\r' {
        end - 1
    } else {
        end
    }
}

/// Where the line after the one that starts at `start` starts.
pub open spec fn next_line(text: Seq<char>, start: int) -> int {
    let end = next_char(text, '\n', start, text.len() as int);
    if end < text.len() {
        end + 1
    } else {
        end
    }
}

/// Whether one of the pieces of `text[from..to]` between commas is `name`.
pub open spec fn lists(text: Seq<char>, name: Seq<char>, from: int, to: int) -> bool
    decreases to - from,
{
    if 0 <= from <= to <= text.len() {
        let end = next_char(text, ',', from, to);
        proof {
            lemma_next_char(text, ',', from, to);
        }
        text.subrange(from, end) == name || (end < to && lists(text, name, end + 1, to))
    } else {
        false
    }
}

/// What a line says.
pub enum Line {
    /// A control group that governs memory, at this path.
    Memory(Seq<char>),
    /// A control group that does not govern memory.
    Other,
    /// Nothing that can be understood.
    Malformed,
}

/// What the line `text[start..stop]` says. Its second field names the
/// subsystems; a field that is empty, or that lists `memory`, stands for a
/// group that governs memory. The path of such a group is the rest of the
/// line behind the second colon, without the slash that it must begin with.
pub open spec fn parse_line(text: Seq<char>, start: int, stop: int) -> Line {
    let first = next_char(text, ':', start, stop);
    if first >= stop {
        Line::Malformed
    } else {
        let second = next_char(text, ':', first + 1, stop);
        if first + 1 == second || lists(text, "memory"@, first + 1, second) {
            if second >= stop || second + 1 >= stop || text[second + 1] != '/' {
                Line::Malformed
            } else {
                Line::Memory(text.subrange(second + 2, stop))
            }
        } else {
            Line::Other
        }
    }
}

/// The paths of the control groups that govern memory, from the lines of
/// `text` from `start` on, in the order of the lines; nothing where a line
/// cannot be understood.
pub open spec fn paths_from(text: Seq<char>, start: int) -> Option<Seq<Seq<char>>>
    decreases text.len() - start,
{
    if start < 0 || start >= text.len() {
        Some(Seq::<Seq<char>>::empty())
    } else {
        proof {
            lemma_next_char(text, '\n', start, text.len() as int);
        }
        match parse_line(text, start, line_stop(text, start)) {
            Line::Malformed => None,
            Line::Other => paths_from(text, next_line(text, start)),
            Line::Memory(path) => match paths_from(text, next_line(text, start)) {
                Some(rest) => Some(seq![path] + rest),
                None => None,
            },
        }
    }
}

/// Where the next `c` stands, there is the first one.
pub proof fn lemma_next_char(text: Seq<char>, c: char, from: int, to: int)
    requires
        0 <= from <= to <= text.len(),
    ensures
        from <= next_char(text, c, from, to) <= to,
        next_char(text, c, from, to) < to ==> text[next_char(text, c, from, to)] == c,
        forall|i: int| from <= i < next_char(text, c, from, to) ==> text[i] != c,
    decreases to - from,
{
    if from < to && text[from] != c {
        lemma_next_char(text, c, from + 1, to);
    }
}

/// A stretch without `c` that ends at a `c` or at `to` ends at the next `c`.
pub proof fn lemma_next_char_found(text: Seq<char>, c: char, from: int, to: int, at: int)
    requires
        0 <= from <= at <= to <= text.len(),
        forall|i: int| from <= i < at ==> text[i] != c,
        at < to ==> text[at] == c,
    ensures
        next_char(text, c, from, to) == at,
    decreases at - from,
{
    if from < at {
        assert(text[from] != c);
        lemma_next_char_found(text, c, from + 1, to, at);
    }
}

/// Index of the first `c` in `text[from..to]`; `to` where there is none.
pub fn find_char(text: &Vec<char>, c: char, from: usize, to: usize) -> (at: usize)
    requires
        from <= to <= text.len(),
    ensures
        at == next_char(text@, c, from as int, to as int),
        from <= at <= to,
{
    let mut at: usize = from;
    while at < to && text[at] != c
        invariant
            from <= at <= to <= text.len(),
            forall|i: int| from <= i < at ==> text@[i] != c,
        decreases to - at,
    {
        at += 1;
    }
    proof {
        lemma_next_char_found(text@, c, from as int, to as int, at as int);
    }
    at
}

/// Whether `text[from..to]` is `name`.
pub fn is_text(text: &Vec<char>, from: usize, to: usize, name: &Vec<char>) -> (same: bool)
    requires
        from <= to <= text.len(),
    ensures
        same == (text@.subrange(from as int, to as int) == name@),
{
    if to - from != name.len() {
        return false;
    }
    let mut k: usize = 0;
    while k < name.len()
        invariant
            k <= name.len(),
            from <= to <= text.len(),
            to - from == name.len(),
            forall|i: int| 0 <= i < k ==> text@[from + i] == name@[i],
        decreases name.len() - k,
    {
        if text[from + k] != name[k] {
            proof {
                assert(text@.subrange(from as int, to as int)[k as int] == text@[from + k]);
            }
            return false;
        }
        k += 1;
    }
    proof {
        assert(text@.subrange(from as int, to as int) =~= name@);
    }
    true
}

/// Whether one of the pieces of `text[from..to]` between commas is `name`.
pub fn is_listed(text: &Vec<char>, name: &Vec<char>, from: usize, to: usize) -> (listed: bool)
    requires
        from <= to <= text.len(),
    ensures
        listed == lists(text@, name@, from as int, to as int),
{
    let mut piece: usize = from;
    loop
        invariant
            from <= piece <= to <= text.len(),
            lists(text@, name@, from as int, to as int) == lists(
                text@,
                name@,
                piece as int,
                to as int,
            ),
        decreases to - piece,
    {
        let end = find_char(text, ',', piece, to);
        if is_text(text, piece, end, name) {
            return true;
        }
        if end >= to {
            return false;
        }
        piece = end + 1;
    }
}

/// Get the paths of the control groups that govern memory, from what the
/// kernel lists for a process. Nothing where a line cannot be understood.
pub fn get_cgroup_paths(proc_cgroups: &str) -> (paths: Option<Vec<String>>)
    ensures
        paths.is_some() == paths_from(proc_cgroups@, 0).is_some(),
        paths.is_some() ==> paths.unwrap().deep_view() == paths_from(proc_cgroups@, 0).unwrap(),
{
    let text = chars_of(proc_cgroups);
    let memory = chars_of("memory");
    let mut result: Vec<String> = Vec::new();
    let mut start: usize = 0;
    proof {
        assert(Seq::<Seq<char>>::empty() + paths_from(text@, 0).unwrap_or(Seq::empty())
            =~= paths_from(text@, 0).unwrap_or(Seq::empty()));
    }
    while start < text.len()
        invariant
            start <= text.len(),
            text@ == proc_cgroups@,
            memory@ == "memory"@,
            paths_from(text@, 0).is_some() == paths_from(text@, start as int).is_some(),
            paths_from(text@, 0).is_some() ==> paths_from(text@, 0).unwrap()
                == result.deep_view() + paths_from(text@, start as int).unwrap(),
        decreases text.len() - start,
    {
        let end = find_char(&text, '\n', start, text.len());
        let stop = if end < text.len() && end > start && text[end - 1] == '\r' {
            end - 1
        } else {
            end
        };
        let next = if end < text.len() {
            end + 1
        } else {
            end
        };
        let first = find_char(&text, ':', start, stop);
        if first >= stop {
            return None;
        }
        let second = find_char(&text, ':', first + 1, stop);
        if first + 1 == second || is_listed(&text, &memory, first + 1, second) {
            if second >= stop || second + 1 >= stop || text[second + 1] != '/' {
                return None;
            }
            let mut cgroup_path = String::new();
            push_chars(&mut cgroup_path, &text, second + 2, stop);
            let ghost so_far = result.deep_view();
            let ghost rest = paths_from(text@, next as int);
            result.push(cgroup_path);
            proof {
                assert(result.deep_view() =~= so_far.push(cgroup_path@));
                assert(cgroup_path@ =~= text@.subrange(second + 2, stop as int));
                if rest.is_some() {
                    assert(so_far + (seq![cgroup_path@] + rest.unwrap()) =~= so_far.push(
                        cgroup_path@,
                    ) + rest.unwrap());
                }
            }
        }
        start = next;
    }
    proof {
        assert(result.deep_view() + Seq::<Seq<char>>::empty() =~= result.deep_view());
    }
    Some(result)
}

} // verus!
