//! The filter engine: which threads and which stack traces a filter
//! leaves visible.

use crate::pattern::{compile, compiled, is_match, regex_matches};
use crate::profile::{StackFrameView, StackTrace, Thread, ThreadView};
use crate::timeline::thread_views;
use regex::Regex;
use vstd::prelude::*;
use vstd::string::StringExecFns;

verus! {

/// Why a filter could not be applied.
#[derive(Copy, Clone, Debug, PartialEq, Eq, Structural)]
pub enum FilterError {
    /// A pattern of the filter is no regular expression.
    InvalidPattern,
}

/// Whether the pattern is absent or compiles.
pub open spec fn usable(pattern: Option<Seq<char>>) -> bool {
    match pattern {
        Some(p) => compiled(p) is Some,
        None => true,
    }
}

/// The pattern of an optional text.
pub open spec fn pattern_view(pattern: Option<String>) -> Option<Seq<char>> {
    match pattern {
        Some(p) => Some(p@),
        None => None,
    }
}

/// The regular expression that an optional pattern compiles to.
pub open spec fn regex_of(pattern: Option<Seq<char>>) -> Option<Regex> {
    match pattern {
        Some(p) => compiled(p),
        None => None,
    }
}

/// The threads that a regular expression leaves visible: all of them
/// without one, else those whose name it matches, in their order.
pub open spec fn shown_threads(threads: Seq<ThreadView>, regex: Option<Regex>) -> Seq<ThreadView> {
    match regex {
        Some(re) => threads.filter(|t: ThreadView| regex_matches(re, t.name)),
        None => threads,
    }
}

/// The threads that a pattern leaves visible: all of them without a
/// pattern, else those whose name the pattern matches, in their order.
pub open spec fn visible_threads(threads: Seq<ThreadView>, pattern: Option<Seq<char>>) -> Seq<
    ThreadView,
> {
    shown_threads(threads, regex_of(pattern))
}

/// The line of a stack frame in the text of its stack trace: the name of
/// the class, a dot and the name of the method.
pub open spec fn frame_line(f: StackFrameView) -> Seq<char> {
    f.class_name + seq!['.'] + f.method_name
}

/// The text of a stack trace that the patterns are matched against: the
/// lines of its frames, innermost first, with a line feed between them.
pub open spec fn rendered(frames: Seq<StackFrameView>) -> Seq<char>
    decreases frames.len(),
{
    if frames.len() == 0 {
        Seq::empty()
    } else if frames.len() == 1 {
        frame_line(frames[0])
    } else {
        rendered(frames.drop_last()) + seq!['\n'] + frame_line(frames.last())
    }
}

/// Whether `part` stands in `text` from the place `k` on.
pub open spec fn stands_at(text: Seq<char>, k: int, part: Seq<char>) -> bool {
    0 <= k && k + part.len() <= text.len() && text.subrange(k, k + part.len()) == part
}

/// Whether `part` stands somewhere in `text`.
pub open spec fn occurs_in(part: Seq<char>, text: Seq<char>) -> bool {
    exists|k: int| stands_at(text, k, part)
}

/// The text of a stack trace holds the line of each of its frames.
pub proof fn lemma_rendered_holds_lines(frames: Seq<StackFrameView>, j: int)
    requires
        0 <= j < frames.len(),
    ensures
        occurs_in(frame_line(frames[j]), rendered(frames)),
    decreases frames.len(),
{
    let text = rendered(frames);
    let line = frame_line(frames[j]);
    if frames.len() == 1 {
        assert(text.subrange(0, line.len() as int) =~= line);
        assert(stands_at(text, 0, line));
    } else {
        let head = rendered(frames.drop_last());
        if j == frames.len() - 1 {
            let k: int = head.len() as int + 1;
            assert(text.subrange(k, k + line.len()) =~= line);
            assert(stands_at(text, k, line));
        } else {
            lemma_rendered_holds_lines(frames.drop_last(), j);
            assert(frames.drop_last()[j] == frames[j]);
            let k = choose|k: int| stands_at(head, k, line);
            assert(text.subrange(k, k + line.len()) =~= head.subrange(k, k + line.len()));
            assert(stands_at(text, k, line));
        }
    }
}

/// Whether a text passes two regular expressions: the first, where given,
/// must match it, and the second, where given, must not.
pub open spec fn passes_by(text: Seq<char>, wanted: Option<Regex>, rejected: Option<Regex>) -> bool {
    &&& wanted matches Some(re) ==> regex_matches(re, text)
    &&& rejected matches Some(re) ==> !regex_matches(re, text)
}

/// Whether a text passes the two patterns: the first, where given, must
/// match it, and the second, where given, must not.
pub open spec fn passes(text: Seq<char>, wanted: Option<Seq<char>>, rejected: Option<Seq<char>>) -> bool {
    passes_by(text, regex_of(wanted), regex_of(rejected))
}

/// Compiles an optional pattern.
pub fn compile_optional(pattern: &Option<String>) -> (r: Result<Option<Regex>, FilterError>)
    ensures
        r is Ok == usable(pattern_view(*pattern)),
        r is Ok ==> r.unwrap() == regex_of(pattern_view(*pattern)),
        r is Err ==> r.unwrap_err() == FilterError::InvalidPattern,
{
    match pattern {
        Some(p) => match compile(p.as_str()) {
            Ok(re) => Ok(Some(re)),
            Err(_) => Err(FilterError::InvalidPattern),
        },
        None => Ok(None),
    }
}

/// The threads that the regular expression leaves visible.
pub fn filter_threads(threads: &Vec<Thread>, regex: &Option<Regex>) -> (r: Vec<Thread>)
    ensures
        thread_views(r@) == shown_threads(thread_views(threads@), *regex),
{
    let ghost views = thread_views(threads@);
    let mut visible: Vec<Thread> = Vec::new();
    let mut i: usize = 0;
    while i < threads.len()
        invariant
            i <= threads.len(),
            views == thread_views(threads@),
            thread_views(visible@) == shown_threads(views.take(i as int), *regex),
        decreases threads.len() - i,
    {
        let keep = match regex {
            Some(re) => is_match(re, threads[i].name.as_str()),
            None => true,
        };
        let ghost before = thread_views(visible@);
        if keep {
            visible.push(threads[i].clone());
        }
        proof {
            reveal(Seq::filter);
            assert(views.take(i + 1).drop_last() =~= views.take(i as int));
            assert(views.take(i + 1).last() == threads@[i as int]@);
            if keep {
                assert(thread_views(visible@) =~= before.push(threads@[i as int]@));
            }
            if regex is None {
                assert(views.take(i + 1) =~= views.take(i as int).push(threads@[i as int]@));
            }
        }
        i = i + 1;
    }
    assert(views.take(threads.len() as int) =~= views);
    visible
}

/// The text of a stack trace that the patterns are matched against.
pub fn render(trace: &StackTrace) -> (r: String)
    ensures
        r@ == rendered(trace@),
{
    let mut text = String::new();
    let mut i: usize = 0;
    while i < trace.frames.len()
        invariant
            i <= trace.frames.len(),
            text@ == rendered(trace@.take(i as int)),
        decreases trace.frames.len() - i,
    {
        let ghost before = text@;
        let frame = &trace.frames[i];
        proof {
            reveal_strlit("\n");
            reveal_strlit(".");
        }
        if i > 0 {
            text.append("\n");
        }
        text.append(frame.class_name());
        text.append(".");
        text.append(frame.method_name());
        proof {
            let now = trace@.take(i + 1);
            assert(now.drop_last() =~= trace@.take(i as int));
            assert(now.last() == frame@);
            if i > 0 {
                assert(text@ =~= before + seq!['\n'] + frame_line(frame@));
            } else {
                assert(text@ =~= frame_line(frame@));
            }
        }
        i = i + 1;
    }
    assert(trace@.take(trace.frames.len() as int) =~= trace@);
    text
}

/// Whether a text passes the two regular expressions.
pub fn passes_both(text: &str, wanted: &Option<Regex>, rejected: &Option<Regex>) -> (r: bool)
    ensures
        r == passes_by(text@, *wanted, *rejected),
{
    let first = match wanted {
        Some(re) => is_match(re, text),
        None => true,
    };
    let second = match rejected {
        Some(re) => !is_match(re, text),
        None => true,
    };
    first && second
}

} // verus!
