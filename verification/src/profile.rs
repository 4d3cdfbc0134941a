//! The record model: threads, stack frames, stack traces and samples.

use crate::text::{decimal_string, decimal_text, str_eq};
use vstd::prelude::*;
use vstd::string::StringExecFns;

verus! {

/// The execution mode of a stack frame.
#[derive(Copy, Clone, Debug, PartialEq, Eq, Structural, Hash)]
pub enum FrameType {
    Interpreted,
    JitCompiled,
    Inlined,
    Native,
    Cpp,
    Kernel,
    C1Compiled,
    Unknown,
}

/// The frame type that a description names; `Unknown` for any other text.
pub open spec fn frame_type_of(s: Seq<char>) -> FrameType {
    if s == "Interpreted"@ {
        FrameType::Interpreted
    } else if s == "JIT compiled"@ {
        FrameType::JitCompiled
    } else if s == "Inlined"@ {
        FrameType::Inlined
    } else if s == "Native"@ {
        FrameType::Native
    } else if s == "C++"@ {
        FrameType::Cpp
    } else if s == "Kernel"@ {
        FrameType::Kernel
    } else if s == "C1 compiled"@ {
        FrameType::C1Compiled
    } else {
        FrameType::Unknown
    }
}

impl FrameType {
    /// Whether frames of this type run managed code, and so carry the
    /// name of a class.
    pub open spec fn is_managed(self) -> bool {
        self is Interpreted || self is JitCompiled || self is Inlined || self is C1Compiled
    }

    /// Classifies the description of a frame type.
    pub fn from(s: &str) -> (r: Self)
        ensures
            r == frame_type_of(s@),
    {
        if str_eq(s, "Interpreted") {
            FrameType::Interpreted
        } else if str_eq(s, "JIT compiled") {
            FrameType::JitCompiled
        } else if str_eq(s, "Inlined") {
            FrameType::Inlined
        } else if str_eq(s, "Native") {
            FrameType::Native
        } else if str_eq(s, "C++") {
            FrameType::Cpp
        } else if str_eq(s, "Kernel") {
            FrameType::Kernel
        } else if str_eq(s, "C1 compiled") {
            FrameType::C1Compiled
        } else {
            FrameType::Unknown
        }
    }
}

impl Default for FrameType {
    fn default() -> (r: Self)
        ensures
            r == FrameType::Unknown,
    {
        FrameType::Unknown
    }
}

/// What a thread was doing when it was sampled.
#[derive(Copy, Clone, Debug, PartialEq, Eq, Structural, Hash)]
pub enum ThreadState {
    Unknown,
    Runnable,
    Sleeping,
}

/// The thread state that a name denotes; `Unknown` for any other text.
pub open spec fn thread_state_of(s: Seq<char>) -> ThreadState {
    if s == "STATE_RUNNABLE"@ {
        ThreadState::Runnable
    } else if s == "STATE_SLEEPING"@ {
        ThreadState::Sleeping
    } else {
        ThreadState::Unknown
    }
}

impl ThreadState {
    /// Classifies the name of a thread state.
    pub fn from(s: &str) -> (r: Self)
        ensures
            r == thread_state_of(s@),
    {
        if str_eq(s, "STATE_RUNNABLE") {
            ThreadState::Runnable
        } else if str_eq(s, "STATE_SLEEPING") {
            ThreadState::Sleeping
        } else {
            ThreadState::Unknown
        }
    }
}

/// The name under which a frame is shown: `type.method`, followed by
/// `:line` for a positive line number, where the frame runs managed code
/// and names its class; the method name alone otherwise.
pub open spec fn display_name(
    class_name: Seq<char>,
    method_name: Seq<char>,
    frame_type: FrameType,
    line_number: i32,
) -> Seq<char> {
    if frame_type.is_managed() && class_name.len() > 0 {
        let suffix = if line_number > 0 {
            seq![':'] + decimal_text(line_number as int)
        } else {
            Seq::<char>::empty()
        };
        class_name + seq!['.'] + method_name + suffix
    } else {
        method_name
    }
}

/// One frame of a call stack.
#[derive(Debug, Hash)]
pub struct StackFrame {
    pub class_name: String,
    pub method_name: String,
    pub frame_type: FrameType,
    pub line_number: i32,
    name: String,
}

/// A stack frame as plain values.
pub struct StackFrameView {
    pub class_name: Seq<char>,
    pub method_name: Seq<char>,
    pub frame_type: FrameType,
    pub line_number: i32,
    pub name: Seq<char>,
}

impl View for StackFrame {
    type V = StackFrameView;

    closed spec fn view(&self) -> StackFrameView {
        StackFrameView {
            class_name: self.class_name@,
            method_name: self.method_name@,
            frame_type: self.frame_type,
            line_number: self.line_number,
            name: self.name@,
        }
    }
}

impl StackFrameView {
    /// Whether the stored name is the one derived from the other fields.
    pub open spec fn wf(self) -> bool {
        self.name == display_name(
            self.class_name,
            self.method_name,
            self.frame_type,
            self.line_number,
        )
    }
}

impl StackFrame {
    /// A frame with its display name computed from the other fields.
    pub fn new(class_name: String, method_name: String, frame_type: FrameType, line_number: i32) -> (r:
        Self)
        ensures
            r@.class_name == class_name@,
            r@.method_name == method_name@,
            r@.frame_type == frame_type,
            r@.line_number == line_number,
            r@.wf(),
    {
        let managed = match frame_type {
            FrameType::Interpreted
            | FrameType::JitCompiled
            | FrameType::Inlined
            | FrameType::C1Compiled => true,
            _ => false,
        };
        let name = if managed && !class_name.as_str().is_empty() {
            let mut name = class_name.clone();
            proof {
                reveal_strlit(".");
                reveal_strlit(":");
            }
            name.append(".");
            name.append(method_name.as_str());
            if line_number > 0 {
                name.append(":");
                let digits = decimal_string(line_number as i128);
                name.append(digits.as_str());
                assert(name@ =~= class_name@ + seq!['.'] + method_name@ + (seq![':'] + decimal_text(
                    line_number as int,
                )));
            } else {
                assert(name@ =~= class_name@ + seq!['.'] + method_name@ + Seq::<char>::empty());
            }
            name
        } else {
            method_name.clone()
        };
        Self { class_name, method_name, frame_type, line_number, name }
    }

    /// The name under which the frame is shown.
    pub fn name(&self) -> (r: &str)
        ensures
            r@ == self@.name,
    {
        self.name.as_str()
    }

    /// The name of the class that declares the method; empty where the
    /// frame has none.
    pub fn class_name(&self) -> (r: &str)
        ensures
            r@ == self@.class_name,
    {
        self.class_name.as_str()
    }

    /// The name of the method or function.
    pub fn method_name(&self) -> (r: &str)
        ensures
            r@ == self@.method_name,
    {
        self.method_name.as_str()
    }

    /// The execution mode of the frame.
    pub fn frame_type(&self) -> (r: FrameType)
        ensures
            r == self@.frame_type,
    {
        self.frame_type
    }

    /// The source line, or a value that is not positive where none is known.
    pub fn line_number(&self) -> (r: i32)
        ensures
            r == self@.line_number,
    {
        self.line_number
    }

    /// Whether two frames agree in every field.
    pub fn same(&self, other: &StackFrame) -> (r: bool)
        ensures
            r == (self@ == other@),
    {
        self.class_name == other.class_name && self.method_name == other.method_name
            && self.frame_type == other.frame_type && self.line_number == other.line_number
            && self.name == other.name
    }
}

impl Clone for StackFrame {
    fn clone(&self) -> (r: Self)
        ensures
            r@ == self@,
    {
        Self {
            class_name: self.class_name.clone(),
            method_name: self.method_name.clone(),
            frame_type: self.frame_type,
            line_number: self.line_number,
            name: self.name.clone(),
        }
    }
}

/// A call stack, innermost frame first.
#[derive(Debug, Hash)]
pub struct StackTrace {
    pub frames: Vec<StackFrame>,
}

impl View for StackTrace {
    type V = Seq<StackFrameView>;

    open spec fn view(&self) -> Seq<StackFrameView> {
        Seq::new(self.frames@.len(), |i: int| self.frames@[i]@)
    }
}

impl StackTrace {
    /// Whether two stack traces hold equal frames in the same order.
    pub fn same(&self, other: &StackTrace) -> (r: bool)
        ensures
            r == (self@ == other@),
    {
        if self.frames.len() != other.frames.len() {
            assert(self@.len() != other@.len());
            return false;
        }
        let mut i: usize = 0;
        while i < self.frames.len()
            invariant
                i <= self.frames.len(),
                self.frames.len() == other.frames.len(),
                forall|j: int| 0 <= j < i ==> self@[j] == other@[j],
            decreases self.frames.len() - i,
        {
            if !self.frames[i].same(&other.frames[i]) {
                assert(self@[i as int] != other@[i as int]);
                return false;
            }
            i = i + 1;
        }
        assert(self@ =~= other@);
        true
    }
}

impl Clone for StackTrace {
    fn clone(&self) -> (r: Self)
        ensures
            r@ == self@,
    {
        let mut frames: Vec<StackFrame> = Vec::new();
        let mut i: usize = 0;
        while i < self.frames.len()
            invariant
                i <= self.frames.len(),
                frames@.len() == i,
                forall|j: int| 0 <= j < i ==> frames@[j]@ == self.frames@[j]@,
            decreases self.frames.len() - i,
        {
            frames.push(self.frames[i].clone());
            i = i + 1;
        }
        let r = StackTrace { frames };
        assert(r@ =~= self@);
        r
    }
}

/// A thread of the profiled process, identified by its OS thread id.
#[derive(Debug, Hash)]
pub struct Thread {
    pub os_thread_id: i64,
    pub name: String,
}

/// A thread as plain values.
pub struct ThreadView {
    pub os_thread_id: i64,
    pub name: Seq<char>,
}

impl View for Thread {
    type V = ThreadView;

    open spec fn view(&self) -> ThreadView {
        ThreadView { os_thread_id: self.os_thread_id, name: self.name@ }
    }
}

impl Clone for Thread {
    fn clone(&self) -> (r: Self)
        ensures
            r@ == self@,
    {
        Thread { os_thread_id: self.os_thread_id, name: self.name.clone() }
    }
}

impl Default for Thread {
    fn default() -> (r: Self)
        ensures
            r@.os_thread_id == 0,
            r@.name.len() == 0,
    {
        Thread { os_thread_id: 0, name: String::new() }
    }
}

/// The place of an entry in the constant pool of one chunk of a trace.
///
/// Equal stack traces of two chunks have two keys.
#[derive(Copy, Clone, Debug, PartialEq, Eq, Structural, Hash)]
pub struct ConstantPoolKey {
    pub chunk_seq: usize,
    pub class_id: i64,
    pub constant_pool_index: i64,
}

impl ConstantPoolKey {
    pub fn new(chunk_seq: usize, class_id: i64, constant_pool_index: i64) -> (r: Self)
        ensures
            r == (ConstantPoolKey { chunk_seq, class_id, constant_pool_index }),
    {
        Self { chunk_seq, class_id, constant_pool_index }
    }

    /// The key as a tuple, the form under which pools are indexed.
    pub open spec fn parts(self) -> (usize, i64, i64) {
        (self.chunk_seq, self.class_id, self.constant_pool_index)
    }

    /// The key as a tuple of its three numbers.
    pub fn to_parts(&self) -> (r: (usize, i64, i64))
        ensures
            r == self.parts(),
    {
        (self.chunk_seq, self.class_id, self.constant_pool_index)
    }

    /// The key that a tuple of three numbers stands for.
    pub fn from_parts(parts: (usize, i64, i64)) -> (r: Self)
        ensures
            r.parts() == parts,
    {
        Self { chunk_seq: parts.0, class_id: parts.1, constant_pool_index: parts.2 }
    }
}

/// One execution sample: the state and call stack of a thread at an
/// instant.
#[derive(Copy, Clone, Debug, PartialEq, Eq, Structural)]
pub struct ExecutionSample {
    pub timestamp_nanos: i64,
    pub state: ThreadState,
    pub stack_trace_key: ConstantPoolKey,
}

/// One off-CPU sample: an interval in which a thread was blocked, with the
/// call stack at which it blocked.
#[derive(Copy, Clone, Debug, PartialEq, Eq, Structural)]
pub struct OffCpu {
    pub timestamp: i64,
    pub duration_millis: i64,
    pub state: ThreadState,
    pub stack_trace_key: i32,
}

impl PartialEq for StackFrame {
    fn eq(&self, other: &Self) -> (r: bool) {
        self.same(other)
    }
}

impl vstd::std_specs::cmp::PartialEqSpecImpl for StackFrame {
    open spec fn obeys_eq_spec() -> bool {
        true
    }

    open spec fn eq_spec(&self, other: &Self) -> bool {
        self@ == other@
    }
}

impl Eq for StackFrame {

}

impl PartialEq for StackTrace {
    fn eq(&self, other: &Self) -> (r: bool) {
        self.same(other)
    }
}

impl vstd::std_specs::cmp::PartialEqSpecImpl for StackTrace {
    open spec fn obeys_eq_spec() -> bool {
        true
    }

    open spec fn eq_spec(&self, other: &Self) -> bool {
        self@ == other@
    }
}

impl Eq for StackTrace {

}

impl PartialEq for Thread {
    fn eq(&self, other: &Self) -> (r: bool) {
        self.os_thread_id == other.os_thread_id && self.name == other.name
    }
}

impl vstd::std_specs::cmp::PartialEqSpecImpl for Thread {
    open spec fn obeys_eq_spec() -> bool {
        true
    }

    open spec fn eq_spec(&self, other: &Self) -> bool {
        self@ == other@
    }
}

impl Eq for Thread {

}

} // verus!
