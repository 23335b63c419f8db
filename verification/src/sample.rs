//! The folding engine for the indented call-graph text of a sampling
//! profiler: the field parser, the depth-tracking stack builder, the
//! section scanner and the applicability detector.
//!
//! A data line carries a run of indentation characters (two per nesting
//! level), a decimal sample count, a function token and, optionally, a
//! module annotation `(in <module>)`. The builder keeps the current call
//! path as an explicit stack; whenever a line's depth is at or above the
//! previous depth, the previous path was a leaf and is flushed into the
//! occurrence map under its `;`-joined key, unless its leaf frame ends
//! with one of the fixed idle/wait symbol names.

use vstd::prelude::*;
use vstd::string::StrSliceExecFns;
use vstd::string::StringExecFns;

use crate::demangle::fix_partially_demangled_rust_symbol;
use crate::demangle::spec_fix_symbol;
use crate::occurrences::Occurrences;
use crate::occurrences::spec_insert;
use crate::occurrences::spec_render;
use crate::strutil::ends_with_str;
use crate::strutil::find_char_from;
use crate::strutil::parse_usize;
use crate::strutil::rfind_str;
use crate::strutil::spec_ends_with;
use crate::strutil::spec_find_char;
use crate::strutil::spec_parse_usize;
use crate::strutil::spec_rfind;
use crate::strutil::spec_starts_with;
use crate::strutil::spec_trim_end;
use crate::strutil::spec_trim_start;
use crate::strutil::starts_with_str;
use crate::strutil::trim_end_ws;
use crate::strutil::trim_start_ws;

verus! {

broadcast use crate::strutil::lemma_find_char_bounds;

/// Folder configuration options.
#[derive(Clone, Debug)]
pub struct Options {
    /// Leave module names off of frames entirely. Default is `false`.
    pub no_modules: bool,
}

impl Default for Options {
    fn default() -> (r: Self)
        ensures
            r.no_modules == false,
    {
        Options { no_modules: false }
    }
}

/// The view of a sequence of owned strings.
pub open spec fn strings_view(v: Seq<String>) -> Seq<Seq<char>> {
    Seq::new(v.len(), |i: int| v[i]@)
}

/// The abstract state of a [`Folder`]: the pending sample count, the
/// current call stack (root first, leaf last), and the configuration.
pub struct FolderView {
    pub samples: nat,
    pub stack: Seq<Seq<char>>,
    pub no_modules: bool,
}

/// A stack collapser for the indented call-graph text of a sampling
/// profiler.
///
/// To construct one, either use `Folder::default()` or create an
/// [`Options`] and use `Folder::from(options)`.
#[derive(Clone)]
pub struct Folder {
    /// Number of samples for the current stack frame.
    current_samples: usize,
    /// Functions on the stack in this entry thus far.
    stack: Vec<String>,
    opt: Options,
}

impl View for Folder {
    type V = FolderView;

    closed spec fn view(&self) -> FolderView {
        FolderView {
            samples: self.current_samples as nat,
            stack: strings_view(self.stack@),
            no_modules: self.opt.no_modules,
        }
    }
}

impl Default for Folder {
    fn default() -> (r: Self)
        ensures
            r@.samples == 0,
            r@.stack == Seq::<Seq<char>>::empty(),
            r@.no_modules == false,
    {
        let r = Folder { current_samples: 0, stack: Vec::new(), opt: Options::default() };
        proof {
            assert(r@.stack =~= Seq::<Seq<char>>::empty());
        }
        r
    }
}

/// An indentation character: the characters a data line's nesting run
/// is drawn from.
pub open spec fn spec_is_indent_char(c: char) -> bool {
    c == ' ' || c == '+' || c == '|' || c == ':' || c == '!'
}

/// Index of the first character of `s` at or after `from` that is not
/// an indentation character, or `s.len()` when there is none.
pub open spec fn spec_find_non_indent(s: Seq<char>, from: int) -> int
    decreases s.len() - from,
{
    if from >= s.len() {
        s.len() as int
    } else if !spec_is_indent_char(s[from]) {
        from
    } else {
        spec_find_non_indent(s, from + 1)
    }
}

/// The module annotation of a line remainder: the text between the last
/// `(in ` and the next `)`, with a trailing `.dylib` dropped since it
/// adds no disambiguating value; empty when either marker is missing.
pub open spec fn spec_module_of(rest: Seq<char>) -> Seq<char> {
    let m = spec_rfind(rest, "(in "@, rest.len() - "(in "@.len());
    if m < 0 {
        Seq::empty()
    } else {
        let tail = rest.subrange(m + "(in "@.len(), rest.len() as int);
        let c = spec_find_char(tail, ')', 0);
        if c == tail.len() {
            Seq::empty()
        } else {
            let raw = tail.subrange(0, c);
            if spec_ends_with(raw, ".dylib"@) {
                raw.subrange(0, raw.len() - ".dylib"@.len())
            } else {
                raw
            }
        }
    }
}

/// The three fields of a data line once its indentation is gone: the
/// sample-count token, the function name (everything before the first
/// `(`, right-trimmed), and the module name. Fails when the line does
/// not split into a count token and a remainder.
pub open spec fn spec_line_parts(rest: Seq<char>, no_modules: bool) -> Option<
    (Seq<char>, Seq<char>, Seq<char>),
> {
    let t = spec_trim_start(rest);
    let k = spec_find_char(t, ' ', 0);
    if k == t.len() {
        None
    } else {
        let time = spec_trim_end(t.subrange(0, k));
        let after = t.subrange(k + 1, t.len() as int);
        let p = spec_find_char(after, '(', 0);
        let func = spec_trim_end(after.subrange(0, p));
        let module = if no_modules {
            Seq::<char>::empty()
        } else {
            spec_module_of(after)
        };
        Some((time, func, module))
    }
}

/// The leaf frame ends with one of the fixed wait/idle symbol names,
/// so its path is suppressed from the output.
pub open spec fn spec_is_ignored(frame: Seq<char>) -> bool {
    ||| spec_ends_with(frame, "__psynch_cvwait"@)
    ||| spec_ends_with(frame, "__select"@)
    ||| spec_ends_with(frame, "__semwait_signal"@)
    ||| spec_ends_with(frame, "__ulock_wait"@)
    ||| spec_ends_with(frame, "__wait4"@)
    ||| spec_ends_with(frame, "__workq_kernreturn"@)
    ||| spec_ends_with(frame, "kevent"@)
    ||| spec_ends_with(frame, "mach_msg_trap"@)
    ||| spec_ends_with(frame, "read"@)
    ||| spec_ends_with(frame, "semaphore_wait_trap"@)
}

/// Tests the leaf frame against the fixed set of wait/idle symbol
/// names that are excluded from the output.
pub fn is_ignored_symbol(frame: &str) -> (r: bool)
    ensures
        r == spec_is_ignored(frame@),
{
    ends_with_str(frame, "__psynch_cvwait") || ends_with_str(frame, "__select") || ends_with_str(
        frame,
        "__semwait_signal",
    ) || ends_with_str(frame, "__ulock_wait") || ends_with_str(frame, "__wait4") || ends_with_str(
        frame,
        "__workq_kernreturn",
    ) || ends_with_str(frame, "kevent") || ends_with_str(frame, "mach_msg_trap") || ends_with_str(
        frame,
        "read",
    ) || ends_with_str(frame, "semaphore_wait_trap")
}

/// The folded-stack key of a call stack: its frames joined by `;`.
pub open spec fn spec_join(frames: Seq<Seq<char>>) -> Seq<char>
    decreases frames.len(),
{
    if frames.len() == 0 {
        Seq::empty()
    } else if frames.len() == 1 {
        frames[0]
    } else {
        spec_join(frames.drop_last()) + seq![';'] + frames.last()
    }
}

/// The display frame built from a parsed line: the fixed-up function
/// name, qualified as `module` + backtick + `function` when a module
/// is known.
pub open spec fn spec_frame(func: Seq<char>, module: Seq<char>) -> Seq<char> {
    let f = spec_fix_symbol(func);
    if module.len() == 0 {
        f
    } else {
        module + seq!['`'] + f
    }
}

/// The occurrence map after one completed path is flushed: unchanged
/// when the leaf frame is ignored, else the joined key accumulates the
/// pending sample count.
pub open spec fn spec_write_stack(
    samples: nat,
    stack: Seq<Seq<char>>,
    occ: Seq<(Seq<char>, nat)>,
) -> Seq<(Seq<char>, nat)> {
    if stack.len() > 0 && spec_is_ignored(stack.last()) {
        occ
    } else {
        spec_insert(occ, spec_join(stack), samples)
    }
}

/// One data line's effect on the engine. The line begins with the
/// mandatory four-character prefix; then its indentation run decodes to
/// a depth. A depth at or below the previous one flushes the previous
/// path as a leaf and pops the stack back to the new depth's parent; a
/// line whose fields fail to parse changes nothing further; otherwise
/// the new frame is pushed and its count becomes the pending count.
pub open spec fn spec_on_line(
    samples: nat,
    stack: Seq<Seq<char>>,
    occ: Seq<(Seq<char>, nat)>,
    line: Seq<char>,
    no_modules: bool,
) -> (nat, Seq<Seq<char>>, Seq<(Seq<char>, nat)>) {
    let body = line.subrange(4, line.len() as int);
    let j = spec_find_non_indent(body, 0);
    if j == body.len() {
        (samples, stack, occ)
    } else {
        let depth = j / 2 + 1;
        let stack1 = if depth <= stack.len() {
            stack.subrange(0, depth - 1)
        } else {
            stack
        };
        let occ1 = if depth <= stack.len() {
            spec_write_stack(samples, stack, occ)
        } else {
            occ
        };
        match spec_line_parts(body.subrange(j, body.len() as int), no_modules) {
            None => (samples, stack1, occ1),
            Some(parts) => match spec_parse_usize(parts.0) {
                None => (samples, stack1, occ1),
                Some(v) => (v, stack1.push(spec_frame(parts.1, parts.2)), occ1),
            },
        }
    }
}

/// Index of the first line of `lines` at or after `from` that starts
/// the call-graph section, or `lines.len()` when there is none.
pub open spec fn spec_find_start(lines: Seq<Seq<char>>, from: int) -> int
    decreases lines.len() - from,
{
    if from >= lines.len() {
        lines.len() as int
    } else if spec_starts_with(lines[from], "Call graph:"@) {
        from
    } else {
        spec_find_start(lines, from + 1)
    }
}

/// The occurrence map accumulated by driving the stack builder over
/// `lines` from index `i`: blank lines are skipped, four-space lines
/// are data lines, a line starting with the end marker (or the end of
/// input) flushes the final pending path, and any other line is
/// malformed and skipped.
pub open spec fn spec_run(
    samples: nat,
    stack: Seq<Seq<char>>,
    occ: Seq<(Seq<char>, nat)>,
    lines: Seq<Seq<char>>,
    i: int,
    no_modules: bool,
) -> Seq<(Seq<char>, nat)>
    decreases lines.len() - i,
{
    if i >= lines.len() {
        spec_write_stack(samples, stack, occ)
    } else {
        let l = spec_trim_end(lines[i]);
        if l.len() == 0 {
            spec_run(samples, stack, occ, lines, i + 1, no_modules)
        } else if spec_starts_with(l, "    "@) {
            let st = spec_on_line(samples, stack, occ, l, no_modules);
            spec_run(st.0, st.1, st.2, lines, i + 1, no_modules)
        } else if spec_starts_with(l, "Total number in stack"@) {
            spec_write_stack(samples, stack, occ)
        } else {
            spec_run(samples, stack, occ, lines, i + 1, no_modules)
        }
    }
}

/// The folded-stack text produced from `lines` by an engine whose state
/// starts as (`samples`, `stack`): empty when no start marker occurs,
/// else the serialized occurrence map of the section after it.
pub open spec fn spec_collapse(
    samples: nat,
    stack: Seq<Seq<char>>,
    lines: Seq<Seq<char>>,
    no_modules: bool,
) -> Seq<char> {
    let s = spec_find_start(lines, 0);
    if s == lines.len() {
        Seq::<char>::empty()
    } else {
        spec_render(spec_run(samples, stack, Seq::empty(), lines, s + 1, no_modules))
    }
}

/// Result of scanning a bounded prefix for the section markers:
/// `Some(true)` when the end marker is reached with the start marker
/// already seen, `Some(false)` when the end marker appears without a
/// prior start marker, and `None` (indeterminate) when the prefix ends
/// before any end marker.
pub open spec fn spec_applicable_from(s: Seq<char>, pos: int, found_start: bool) -> Option<bool>
    decreases s.len() - pos,
{
    if pos >= s.len() {
        None
    } else {
        let k = spec_find_char(s, '\n', pos);
        let line = s.subrange(pos, k);
        let next = if k < s.len() {
            k + 1
        } else {
            k
        };
        if spec_starts_with(line, "Call graph:"@) {
            spec_applicable_from(s, next, true)
        } else if spec_starts_with(line, "Total number in stack"@) {
            Some(found_start)
        } else {
            spec_applicable_from(s, next, found_start)
        }
    }
}

/// Law: a path whose leaf frame ends with one of the ignored wait/idle
/// symbol names is discarded at flush time — the occurrence map, and so
/// the eventual output, is exactly what it was before the flush.
pub proof fn lemma_ignored_leaf_never_emitted(
    samples: nat,
    stack: Seq<Seq<char>>,
    occ: Seq<(Seq<char>, nat)>,
)
    requires
        stack.len() > 0,
        spec_is_ignored(stack.last()),
    ensures
        spec_write_stack(samples, stack, occ) == occ,
{
}

/// Law: at flush time, the key written is exactly the `;`-join of the
/// frames on the stack at the moment the leaf was observed, and the
/// pending count accumulates additively under it.
pub proof fn lemma_flush_writes_current_path(
    samples: nat,
    stack: Seq<Seq<char>>,
    occ: Seq<(Seq<char>, nat)>,
)
    requires
        !(stack.len() > 0 && spec_is_ignored(stack.last())),
        samples <= usize::MAX,
    ensures
        crate::occurrences::spec_count_of(
            spec_write_stack(samples, stack, occ),
            spec_join(stack),
        ) == crate::occurrences::spec_sat_add(
            crate::occurrences::spec_count_of(occ, spec_join(stack)),
            samples,
        ),
{
    crate::occurrences::lemma_insert_accumulates(occ, spec_join(stack), samples);
}

/// Law: module qualification affects neither whether a line parses nor
/// its sample-count token nor its function name; with qualification
/// off, the module field is always empty.
pub proof fn lemma_line_parts_module_independent(rest: Seq<char>)
    ensures
        spec_line_parts(rest, true) is Some <==> spec_line_parts(rest, false) is Some,
        spec_line_parts(rest, true) is Some ==> spec_line_parts(rest, true).unwrap().0
            == spec_line_parts(rest, false).unwrap().0,
        spec_line_parts(rest, true) is Some ==> spec_line_parts(rest, true).unwrap().1
            == spec_line_parts(rest, false).unwrap().1,
        spec_line_parts(rest, true) is Some ==> spec_line_parts(rest, true).unwrap().2
            == Seq::<char>::empty(),
{
}

/// Law: a frame without a module is the fixed-up function name itself;
/// a qualified frame only prepends the module and a backtick to it.
pub proof fn lemma_frame_shape(func: Seq<char>, module: Seq<char>)
    ensures
        spec_frame(func, Seq::empty()) == spec_fix_symbol(func),
        module.len() > 0 ==> spec_frame(func, module) == module + seq!['`'] + spec_fix_symbol(
            func,
        ),
{
}

/// A symbol name free of backticks is a suffix of `md` + backtick +
/// `fb` exactly when it is a suffix of `fb`: a longer match would have
/// to run across the backtick.
proof fn lemma_ends_with_qualified(md: Seq<char>, fb: Seq<char>, sym: Seq<char>)
    requires
        md.len() > 0,
        forall|i: int| 0 <= i < sym.len() ==> sym[i] != '`',
    ensures
        spec_ends_with(md + seq!['`'] + fb, sym) == spec_ends_with(fb, sym),
{
    let fm = md + seq!['`'] + fb;
    assert(fm.len() == md.len() + 1 + fb.len());
    if sym.len() <= fb.len() {
        if spec_ends_with(fm, sym) {
            assert forall|i: int| 0 <= i < sym.len() implies fb.subrange(
                fb.len() - sym.len(),
                fb.len() as int,
            )[i] == sym[i] by {
                assert(sym[i] == fm.subrange(fm.len() - sym.len(), fm.len() as int)[i]);
                assert(fm[fm.len() - sym.len() + i] == fb[fb.len() - sym.len() + i]);
            };
            assert(fb.subrange(fb.len() - sym.len(), fb.len() as int) =~= sym);
        }
        if spec_ends_with(fb, sym) {
            assert forall|i: int| 0 <= i < sym.len() implies fm.subrange(
                fm.len() - sym.len(),
                fm.len() as int,
            )[i] == sym[i] by {
                assert(sym[i] == fb.subrange(fb.len() - sym.len(), fb.len() as int)[i]);
                assert(fm[fm.len() - sym.len() + i] == fb[fb.len() - sym.len() + i]);
            };
            assert(fm.subrange(fm.len() - sym.len(), fm.len() as int) =~= sym);
        }
    } else {
        assert(!spec_ends_with(fb, sym));
        if spec_ends_with(fm, sym) {
            let k = sym.len() - fb.len() - 1;
            assert(sym[k] == fm.subrange(fm.len() - sym.len(), fm.len() as int)[k]);
            assert(fm[md.len() as int] == '`');
            assert(sym[k] == '`');
            assert(false);
        }
    }
}

/// Law: whether a leaf frame is suppressed does not depend on its
/// module qualification — no ignored symbol name contains a backtick,
/// so only the function-name part of the frame decides.
pub proof fn lemma_ignored_module_independent(md: Seq<char>, fb: Seq<char>)
    requires
        md.len() > 0,
    ensures
        spec_is_ignored(md + seq!['`'] + fb) == spec_is_ignored(fb),
{
    reveal_strlit("__psynch_cvwait");
    reveal_strlit("__select");
    reveal_strlit("__semwait_signal");
    reveal_strlit("__ulock_wait");
    reveal_strlit("__wait4");
    reveal_strlit("__workq_kernreturn");
    reveal_strlit("kevent");
    reveal_strlit("mach_msg_trap");
    reveal_strlit("read");
    reveal_strlit("semaphore_wait_trap");
    assert(forall|i: int| 0 <= i < "__psynch_cvwait"@.len() ==> "__psynch_cvwait"@[i] != '`');
    assert(forall|i: int| 0 <= i < "__select"@.len() ==> "__select"@[i] != '`');
    assert(forall|i: int| 0 <= i < "__semwait_signal"@.len() ==> "__semwait_signal"@[i] != '`');
    assert(forall|i: int| 0 <= i < "__ulock_wait"@.len() ==> "__ulock_wait"@[i] != '`');
    assert(forall|i: int| 0 <= i < "__wait4"@.len() ==> "__wait4"@[i] != '`');
    assert(forall|i: int|
        0 <= i < "__workq_kernreturn"@.len() ==> "__workq_kernreturn"@[i] != '`');
    assert(forall|i: int| 0 <= i < "kevent"@.len() ==> "kevent"@[i] != '`');
    assert(forall|i: int| 0 <= i < "mach_msg_trap"@.len() ==> "mach_msg_trap"@[i] != '`');
    assert(forall|i: int| 0 <= i < "read"@.len() ==> "read"@[i] != '`');
    assert(forall|i: int| 0 <= i < "semaphore_wait_trap"@.len() ==> "semaphore_wait_trap"@[i]
        != '`');
    lemma_ends_with_qualified(md, fb, "__psynch_cvwait"@);
    lemma_ends_with_qualified(md, fb, "__select"@);
    lemma_ends_with_qualified(md, fb, "__semwait_signal"@);
    lemma_ends_with_qualified(md, fb, "__ulock_wait"@);
    lemma_ends_with_qualified(md, fb, "__wait4"@);
    lemma_ends_with_qualified(md, fb, "__workq_kernreturn"@);
    lemma_ends_with_qualified(md, fb, "kevent"@);
    lemma_ends_with_qualified(md, fb, "mach_msg_trap"@);
    lemma_ends_with_qualified(md, fb, "read"@);
    lemma_ends_with_qualified(md, fb, "semaphore_wait_trap"@);
}

/// The found index never precedes `from` and never passes the end.
proof fn lemma_find_non_indent_bounds(s: Seq<char>, from: int)
    requires
        from <= s.len(),
    ensures
        from <= spec_find_non_indent(s, from) <= s.len(),
    decreases s.len() - from,
{
    if from < s.len() && spec_is_indent_char(s[from]) {
        lemma_find_non_indent_bounds(s, from + 1);
    }
}

/// A module-qualified frame and its bare counterpart: equal when the
/// line carried no module, else the bare frame with the module and a
/// backtick prepended.
pub open spec fn spec_frames_correspond(fm: Seq<char>, fb: Seq<char>) -> bool {
    fm == fb || exists|md: Seq<char>| md.len() > 0 && fm == md + seq!['`'] + fb
}

/// Stacks built from the same lines under the two settings: the same
/// depth, with frames pairwise corresponding.
pub open spec fn spec_stacks_correspond(sm: Seq<Seq<char>>, sb: Seq<Seq<char>>) -> bool {
    sm.len() == sb.len() && forall|i: int|
        0 <= i < sm.len() ==> spec_frames_correspond(sm[i], sb[i])
}

/// Law: turning module qualification off never changes whether a data
/// line parses, the pending count it yields, or the depth bookkeeping —
/// it only strips each frame to its bare fixed-up function name. When
/// the stacks before a line correspond, the stacks after it correspond
/// and the pending counts are equal.
pub proof fn lemma_on_line_module_independent(
    samples: nat,
    sm: Seq<Seq<char>>,
    sb: Seq<Seq<char>>,
    occm: Seq<(Seq<char>, nat)>,
    occb: Seq<(Seq<char>, nat)>,
    line: Seq<char>,
)
    requires
        spec_stacks_correspond(sm, sb),
    ensures
        spec_on_line(samples, sm, occm, line, false).0 == spec_on_line(
            samples,
            sb,
            occb,
            line,
            true,
        ).0,
        spec_stacks_correspond(
            spec_on_line(samples, sm, occm, line, false).1,
            spec_on_line(samples, sb, occb, line, true).1,
        ),
{
    let body = line.subrange(4, line.len() as int);
    let j = spec_find_non_indent(body, 0);
    lemma_find_non_indent_bounds(body, 0);
    if j != body.len() {
        let depth = j / 2 + 1;
        let rest = body.subrange(j, body.len() as int);
        lemma_line_parts_module_independent(rest);
        let sm1 = if depth <= sm.len() {
            sm.subrange(0, depth - 1)
        } else {
            sm
        };
        let sb1 = if depth <= sb.len() {
            sb.subrange(0, depth - 1)
        } else {
            sb
        };
        assert(spec_stacks_correspond(sm1, sb1)) by {
            if depth <= sm.len() {
                assert forall|i: int| 0 <= i < sm1.len() implies spec_frames_correspond(
                    sm1[i],
                    sb1[i],
                ) by {
                    assert(sm1 == sm.subrange(0, depth - 1));
                    assert(sb1 == sb.subrange(0, depth - 1));
                    assert(sm.subrange(0, depth - 1)[i] == sm[i]);
                    assert(sb.subrange(0, depth - 1)[i] == sb[i]);
                    assert(spec_frames_correspond(sm[i], sb[i]));
                };
            }
        };
        if spec_line_parts(rest, false) is Some {
            let parts = spec_line_parts(rest, false).unwrap();
            if spec_parse_usize(parts.0) is Some {
                let fm = spec_frame(parts.1, parts.2);
                let fb = spec_frame(parts.1, Seq::<char>::empty());
                assert(spec_frames_correspond(fm, fb)) by {
                    if parts.2.len() > 0 {
                        assert(parts.2.len() > 0 && fm == parts.2 + seq!['`'] + fb);
                    }
                };
                assert(spec_stacks_correspond(sm1.push(fm), sb1.push(fb))) by {
                    assert forall|i: int| 0 <= i < sm1.push(fm).len() implies
                        spec_frames_correspond(sm1.push(fm)[i], sb1.push(fb)[i]) by {
                        if i < sm1.len() {
                            assert(sm1.push(fm)[i] == sm1[i]);
                            assert(sb1.push(fb)[i] == sb1[i]);
                        }
                    };
                };
            }
        }
    }
}

impl Folder {
    /// A folder with the given options and empty run state.
    pub fn from(opt: Options) -> (r: Self)
        ensures
            r@.samples == 0,
            r@.stack == Seq::<Seq<char>>::empty(),
            r@.no_modules == opt.no_modules,
    {
        let r = Folder { current_samples: 0, stack: Vec::new(), opt };
        proof {
            assert(r@.stack =~= Seq::<Seq<char>>::empty());
        }
        r
    }

    /// An indentation character: space, `+`, `|`, `:` or `!`.
    pub fn is_indent_char(c: char) -> (r: bool)
        ensures
            r == spec_is_indent_char(c),
    {
        c == ' ' || c == '+' || c == '|' || c == ':' || c == '!'
    }

    /// Splits an indentation-stripped data line into its sample-count
    /// token, function name and module name.
    pub fn line_parts<'a>(&self, line: &'a str) -> (r: Option<(&'a str, &'a str, &'a str)>)
        ensures
            ({
                let sp = spec_line_parts(line@, self@.no_modules);
                match r {
                    Some(parts) => sp == Some((parts.0@, parts.1@, parts.2@)),
                    None => sp is None,
                }
            }),
    {
        let t = trim_start_ws(line);
        let tn = t.unicode_len();
        let k = find_char_from(t, ' ', 0);
        if k == tn {
            return None;
        }
        let time = trim_end_ws(t.substring_char(0, k));
        let after = t.substring_char(k + 1, tn);
        let an = after.unicode_len();
        let p = find_char_from(after, '(', 0);
        let func = trim_end_ws(after.substring_char(0, p));
        proof {
            reveal_strlit("");
            assert(""@ =~= Seq::<char>::empty());
        }
        let module: &str = if self.opt.no_modules {
            ""
        } else {
            match rfind_str(after, "(in ") {
                None => "",
                Some(m) => {
                    let tail = after.substring_char(m + "(in ".unicode_len(), an);
                    let tln = tail.unicode_len();
                    let c = find_char_from(tail, ')', 0);
                    if c == tln {
                        ""
                    } else {
                        let raw = tail.substring_char(0, c);
                        if ends_with_str(raw, ".dylib") {
                            raw.substring_char(0, raw.unicode_len() - ".dylib".unicode_len())
                        } else {
                            raw
                        }
                    }
                },
            }
        };
        Some((time, func, module))
    }

    /// Flushes the current path: unless the leaf frame is one of the
    /// ignored wait/idle symbols, the `;`-joined key accumulates the
    /// pending sample count in `occurrences`.
    pub fn write_stack(&self, occurrences: &mut Occurrences)
        ensures
            final(occurrences)@ == spec_write_stack(self@.samples, self@.stack, old(occurrences)@),
    {
        let depth = self.stack.len();
        if depth > 0 {
            let leaf: &str = self.stack[depth - 1].as_str();
            if is_ignored_symbol(leaf) {
                return ;
            }
        }
        let mut key = String::new();
        proof {
            assert(key@ =~= spec_join(self@.stack.subrange(0, 0)));
        }
        let mut i: usize = 0;
        while i < depth
            invariant
                i <= depth,
                depth == self.stack.len(),
                key@ == spec_join(self@.stack.subrange(0, i as int)),
            decreases depth - i,
        {
            if i > 0 {
                key.append(";");
            }
            key.append(self.stack[i].as_str());
            proof {
                reveal_strlit(";");
                assert(";"@ =~= seq![';']);
                assert(self@.stack.subrange(0, i + 1).drop_last() =~= self@.stack.subrange(
                    0,
                    i as int,
                ));
                assert(self@.stack.subrange(0, i + 1).last() == self@.stack[i as int]);
                assert(key@ =~= spec_join(self@.stack.subrange(0, i + 1)));
            }
            i = i + 1;
        }
        proof {
            assert(self@.stack.subrange(0, depth as int) =~= self@.stack);
        }
        occurrences.insert(key, self.current_samples);
    }

    /// Processes one data line (its mandatory four-character prefix
    /// included): decodes the indentation run to a depth, flushes and
    /// pops when the previous path was a leaf, then parses the fields
    /// and pushes the new frame. A line that fails to parse leaves the
    /// stack and pending count as the flush left them.
    pub fn on_line(&mut self, line: &str, occurrences: &mut Occurrences)
        requires
            line@.len() >= 4,
        ensures
            ({
                let st = spec_on_line(
                    old(self)@.samples,
                    old(self)@.stack,
                    old(occurrences)@,
                    line@,
                    old(self)@.no_modules,
                );
                &&& final(self)@.samples == st.0
                &&& final(self)@.stack == st.1
                &&& final(occurrences)@ == st.2
                &&& final(self)@.no_modules == old(self)@.no_modules
            }),
    {
        let n = line.unicode_len();
        let body = line.substring_char(4, n);
        let bn = body.unicode_len();
        let mut j: usize = 0;
        while j < bn && Folder::is_indent_char(body.get_char(j))
            invariant
                j <= bn,
                bn == body@.len(),
                spec_find_non_indent(body@, 0) == spec_find_non_indent(body@, j as int),
            decreases bn - j,
        {
            j = j + 1;
        }
        if j == bn {
            return ;
        }
        let depth = j / 2 + 1;
        if depth <= self.stack.len() {
            self.write_stack(occurrences);
            self.stack.truncate(depth - 1);
            proof {
                assert(self@.stack =~= old(self)@.stack.subrange(0, depth - 1));
            }
        }
        let rest = body.substring_char(j, bn);
        match self.line_parts(rest) {
            None => {},
            Some(parts) => {
                match parse_usize(parts.0) {
                    None => {},
                    Some(samples) => {
                        self.current_samples = samples;
                        let fixed = fix_partially_demangled_rust_symbol(parts.1);
                        let frame = if parts.2.is_empty() {
                            String::from_str(fixed)
                        } else {
                            let mut f = String::from_str(parts.2);
                            f.append("`");
                            f.append(fixed);
                            proof {
                                reveal_strlit("`");
                                assert("`"@ =~= seq!['`']);
                            }
                            f
                        };
                        self.stack.push(frame);
                        proof {
                            assert(self@.stack =~= strings_view(self.stack@.drop_last()).push(
                                frame@,
                            ));
                        }
                    },
                }
            },
        }
    }

    /// Flushes the final pending path into `occurrences`, serializes
    /// every accumulated entry to `out`, and resets the run state so
    /// the folder can process the next input.
    fn finish_run(&mut self, occurrences: &mut Occurrences, out: &mut String)
        ensures
            final(out)@ == old(out)@ + spec_render(
                spec_write_stack(old(self)@.samples, old(self)@.stack, old(occurrences)@),
            ),
            final(self)@.samples == 0,
            final(self)@.stack == Seq::<Seq<char>>::empty(),
            final(self)@.no_modules == old(self)@.no_modules,
    {
        self.write_stack(occurrences);
        occurrences.write_and_clear(out);
        self.current_samples = 0;
        self.stack.clear();
        proof {
            assert(self@.stack =~= Seq::<Seq<char>>::empty());
        }
    }

    /// Folds one whole input, given as its lines: skips everything
    /// before the start marker, drives the stack builder across the
    /// call-graph section, appends the serialized folded stacks to
    /// `out`, and resets the run state. Returns whether a call-graph
    /// section was found at all; when none is, the input produces no
    /// output and the state is left untouched.
    pub fn collapse(&mut self, lines: &Vec<String>, out: &mut String) -> (found: bool)
        ensures
            found == (spec_find_start(strings_view(lines@), 0) < lines@.len()),
            final(out)@ == old(out)@ + spec_collapse(
                old(self)@.samples,
                old(self)@.stack,
                strings_view(lines@),
                old(self)@.no_modules,
            ),
            !found ==> final(self)@ == old(self)@,
            found ==> final(self)@.samples == 0 && final(self)@.stack == Seq::<
                Seq<char>,
            >::empty() && final(self)@.no_modules == old(self)@.no_modules,
    {
        let ghost lv = strings_view(lines@);
        let n = lines.len();
        let mut i: usize = 0;
        while i < n && !starts_with_str(lines[i].as_str(), "Call graph:")
            invariant
                i <= n,
                n == lines@.len(),
                lv == strings_view(lines@),
                spec_find_start(lv, 0) == spec_find_start(lv, i as int),
            decreases n - i,
        {
            i = i + 1;
        }
        if i == n {
            proof {
                assert(final(out)@ =~= old(out)@ + spec_collapse(
                    old(self)@.samples,
                    old(self)@.stack,
                    lv,
                    old(self)@.no_modules,
                ));
            }
            return false;
        }
        let ghost start = i as int;
        let mut occurrences = Occurrences::new();
        i = i + 1;
        while i < n
            invariant
                start + 1 <= i <= n,
                n == lines@.len(),
                lv == strings_view(lines@),
                0 <= start < n,
                spec_find_start(lv, 0) == start,
                self@.no_modules == old(self)@.no_modules,
                out@ == old(out)@,
                spec_run(
                    old(self)@.samples,
                    old(self)@.stack,
                    Seq::empty(),
                    lv,
                    start + 1,
                    old(self)@.no_modules,
                ) == spec_run(
                    self@.samples,
                    self@.stack,
                    occurrences@,
                    lv,
                    i as int,
                    self@.no_modules,
                ),
            decreases n - i,
        {
            let l = trim_end_ws(lines[i].as_str());
            proof {
                assert(lv[i as int] == lines@[i as int]@);
            }
            if l.unicode_len() == 0 {
                i = i + 1;
            } else if starts_with_str(l, "    ") {
                proof {
                    reveal_strlit("    ");
                }
                self.on_line(l, &mut occurrences);
                i = i + 1;
            } else if starts_with_str(l, "Total number in stack") {
                self.finish_run(&mut occurrences, out);
                return true;
            } else {
                i = i + 1;
            }
        }
        self.finish_run(&mut occurrences, out);
        true
    }

    /// Scans a bounded prefix of an input for the section markers and
    /// reports whether this folder suits the input: a definite yes when
    /// start and end markers appear in order, a definite no when the
    /// end marker appears without a prior start marker, indeterminate
    /// when the prefix ends before any end marker.
    pub fn is_applicable(&mut self, input: &str) -> (r: Option<bool>)
        ensures
            r == spec_applicable_from(input@, 0, false),
            final(self)@ == old(self)@,
    {
        let n = input.unicode_len();
        let mut pos: usize = 0;
        let mut found_start = false;
        while pos < n
            invariant
                pos <= n,
                n == input@.len(),
                spec_applicable_from(input@, 0, false) == spec_applicable_from(
                    input@,
                    pos as int,
                    found_start,
                ),
            decreases n - pos,
        {
            let k = find_char_from(input, '\n', pos);
            let line = input.substring_char(pos, k);
            if starts_with_str(line, "Call graph:") {
                found_start = true;
            } else if starts_with_str(line, "Total number in stack") {
                return Some(found_start);
            }
            pos = if k < n {
                k + 1
            } else {
                k
            };
        }
        None
    }
}

} // verus!
