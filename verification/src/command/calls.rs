//! The calls of a document, and where a cursor sits among them.
use vstd::prelude::*;
use vstd::utf8::*;
use crate::command::{Arg, ArgKind, CommandCall, Param, arg_view, first_music};
use crate::finding::{kept, last_below, lemma_kept, lemma_last_below};
use crate::line_struct::{LineIndex, Span, range_between};
use crate::protocol::{Diagnostic, DiagnosticView, Severity};

verus! {

/// The command calls found in a document, in source order by keyword start. A call's body may
/// contain later calls, so spans nest.
#[derive(Debug)]
pub struct Commands {
    pub calls: Vec<CommandCall>,
}

/// The calls come in source order.
pub open spec fn in_order(calls: Seq<CommandCall>) -> bool {
    forall|i: int, j: int|
        0 <= i < j < calls.len() ==> (#[trigger] calls[i]).keyword.start <= (
        #[trigger] calls[j]).keyword.start
}

/// Which calls have their keyword in `[start, end)`.
pub open spec fn keyword_in(calls: Seq<CommandCall>, start: int, end: int) -> spec_fn(int) -> bool {
    |k: int| start <= calls[k].keyword.start < end
}

impl Commands {
    pub open spec fn wf(self) -> bool {
        in_order(self.calls@)
    }

    pub fn new(calls: Vec<CommandCall>) -> (r: Self)
        requires
            in_order(calls@),
        ensures
            r.wf(),
            r.calls == calls,
    {
        Self { calls }
    }

    /// The calls whose keyword lies within the half-open byte range `start..end`, by their place
    /// in the list.
    pub fn within(&self, start: usize, end: usize) -> (r: Vec<usize>)
        ensures
            r@ == kept(
                self.calls@.len() as int,
                keyword_in(self.calls@, start as int, end as int),
            ),
            forall|k: int| 0 <= k < r@.len() ==> (#[trigger] r@[k]) < self.calls@.len(),
    {
        let mut out: Vec<usize> = Vec::new();
        let mut k: usize = 0;
        let ghost fits = keyword_in(self.calls@, start as int, end as int);
        while k < self.calls.len()
            invariant
                k <= self.calls@.len(),
                fits == keyword_in(self.calls@, start as int, end as int),
                out@ == kept(k as int, fits),
            decreases self.calls.len() - k,
        {
            if start <= self.calls[k].keyword.start && self.calls[k].keyword.start < end {
                out.push(k);
            }
            k = k + 1;
        }
        proof {
            lemma_kept(k as int, fits);
        }
        out
    }
}

/// Whether an argument is of the shape that a kind reads, whatever either holds.
pub open spec fn fits_kind(arg: Arg, kind: ArgKind) -> bool {
    match kind {
        ArgKind::BareWord => arg is BareWord,
        ArgKind::Count => arg is Count,
        ArgKind::NumberList => arg is NumberList,
        ArgKind::Fraction => arg is Fraction,
        ArgKind::Music => arg is Music,
        ArgKind::Pitch => arg is Pitch,
        ArgKind::Word => arg is Word,
        ArgKind::String => arg is String,
        ArgKind::PropertyPath => arg is PropertyPath,
        ArgKind::Unknown(_) => arg is Unknown,
        ArgKind::Literal(_) => arg is Literal,
        ArgKind::Group(_) => arg is Group,
        ArgKind::ContextType => arg is ContextType,
        ArgKind::ContextName => arg is ContextName,
    }
}

/// Whether `arg` is the variant that is read from a node matching `kind`.
pub fn arg_matches_kind(arg: &Arg, kind: &ArgKind) -> (r: bool)
    ensures
        r == fits_kind(*arg, *kind),
{
    match (arg, kind) {
        (Arg::BareWord { .. }, ArgKind::BareWord) => true,
        (Arg::Count { .. }, ArgKind::Count) => true,
        (Arg::NumberList { .. }, ArgKind::NumberList) => true,
        (Arg::Fraction { .. }, ArgKind::Fraction) => true,
        (Arg::Music { .. }, ArgKind::Music) => true,
        (Arg::Pitch { .. }, ArgKind::Pitch) => true,
        (Arg::Word { .. }, ArgKind::Word) => true,
        (Arg::String { .. }, ArgKind::String) => true,
        (Arg::PropertyPath { .. }, ArgKind::PropertyPath) => true,
        (Arg::Unknown { .. }, ArgKind::Unknown(_)) => true,
        (Arg::Literal { .. }, ArgKind::Literal(_)) => true,
        (Arg::Group { .. }, ArgKind::Group(_)) => true,
        (Arg::ContextType { .. }, ArgKind::ContextType) => true,
        (Arg::ContextName { .. }, ArgKind::ContextName) => true,
        _ => false,
    }
}

/// Whether an argument is a string whose last byte is its closing quote: a character typed right
/// behind it can never extend it.
pub open spec fn closed_string(arg: Arg, bytes: Seq<u8>) -> bool {
    let end = arg_view(arg).place().end;
    arg is String && 1 <= end <= bytes.len() && bytes[end - 1] == 34
}

pub fn quoted_string_closes_at_its_own_end(arg: &Arg, src: &str) -> (r: bool)
    ensures
        r == closed_string(*arg, encode_utf8(src@)),
{
    if !matches!(arg, Arg::String { .. }) {
        return false;
    }
    let bytes = src.as_bytes();
    let end = arg.span().end;
    end >= 1 && end <= bytes.len() && bytes[end - 1] == 34
}

/// Whether a cursor at `offset` is not past an argument yet.
pub open spec fn not_past(arg: Arg, offset: int, bytes: Seq<u8>) -> bool {
    let end = arg_view(arg).place().end;
    if closed_string(arg, bytes) {
        offset < end
    } else {
        offset <= end
    }
}

/// The first parameter from `p` on that an argument fits, or just past the last one.
pub open spec fn next_param(arg: Arg, params: Seq<Param>, p: int) -> int
    decreases params.len() - p,
{
    if p < 0 || p >= params.len() || fits_kind(arg, params[p].kind) {
        p
    } else {
        next_param(arg, params, p + 1)
    }
}

/// The parameter a cursor is inside or before, and the argument it is inside, with arguments from
/// `k` on still to be met and parameters from `p` on still free.
pub open spec fn aligned(
    args: Seq<Arg>,
    params: Seq<Param>,
    k: int,
    p: int,
    offset: int,
    bytes: Seq<u8>,
) -> (int, Option<int>)
    decreases args.len() - k,
{
    if k < 0 || k >= args.len() {
        (p, None)
    } else {
        let q = next_param(args[k], params, p);
        if q >= params.len() {
            (params.len() as int, None)
        } else if not_past(args[k], offset, bytes) {
            (q, Some(k))
        } else {
            aligned(args, params, k + 1, q + 1, offset, bytes)
        }
    }
}

/// Aligns `args`, in which a skipped optional parameter is simply absent, against `params`: each
/// argument belongs to the next parameter whose kind it fits. Returns the parameter that `offset`
/// falls inside or is about to be typed into, and the argument it landed inside, if any.
pub fn align_arg_to_param(args: &Vec<Arg>, params: &Vec<Param>, offset: usize, src: &str) -> (r: (
    usize,
    Option<usize>,
))
    ensures
        ({
            let (p, found) = aligned(args@, params@, 0, 0, offset as int, encode_utf8(src@));
            r.0 == p && match r.1 {
                Some(k) => found == Some(k as int),
                None => found is None,
            }
        }),
        r.0 <= params@.len(),
        r.1 is Some ==> r.1->0 < args@.len(),
{
    let ghost bytes = encode_utf8(src@);
    let mut p: usize = 0;
    let mut k: usize = 0;
    while k < args.len()
        invariant
            k <= args@.len(),
            p <= params@.len(),
            bytes == encode_utf8(src@),
            aligned(args@, params@, 0, 0, offset as int, bytes) == aligned(
                args@,
                params@,
                k as int,
                p as int,
                offset as int,
                bytes,
            ),
        decreases args.len() - k,
    {
        let ghost from = p;
        while p < params.len() && !arg_matches_kind(&args[k], &params[p].kind)
            invariant
                k < args@.len(),
                from <= p <= params@.len(),
                next_param(args@[k as int], params@, from as int) == next_param(
                    args@[k as int],
                    params@,
                    p as int,
                ),
            decreases params.len() - p,
        {
            p = p + 1;
        }
        if p >= params.len() {
            return (params.len(), None);
        }
        let end = args[k].span().end;
        let still_inside = if quoted_string_closes_at_its_own_end(&args[k], src) {
            offset < end
        } else {
            offset <= end
        };
        if still_inside {
            return (p, Some(k));
        }
        p = p + 1;
        k = k + 1;
    }
    (p, None)
}

/// Whether a byte is ASCII white space.
pub open spec fn ascii_white(byte: u8) -> bool {
    byte == 32 || byte == 9 || byte == 10 || byte == 12 || byte == 13
}

/// How many white space bytes stand from `from` on.
pub open spec fn white_run(bytes: Seq<u8>, from: int) -> nat
    decreases bytes.len() - from,
{
    if 0 <= from < bytes.len() && ascii_white(bytes[from]) {
        1 + white_run(bytes, from + 1)
    } else {
        0
    }
}

/// The length, in bytes, of the run of ASCII whitespace starting at `from`.
pub fn trailing_whitespace_len(src: &str, from: usize) -> (r: usize)
    ensures
        r == white_run(encode_utf8(src@), from as int),
        r > 0 ==> from + r <= encode_utf8(src@).len(),
{
    let bytes = src.as_bytes();
    let mut at: usize = from;
    while at < bytes.len() && (bytes[at] == 32 || bytes[at] == 9 || bytes[at] == 10 || bytes[at]
        == 12 || bytes[at] == 13)
        invariant
            bytes@ == encode_utf8(src@),
            from <= at,
            at > from ==> at <= bytes@.len(),
            white_run(bytes@, from as int) == at - from + white_run(bytes@, at as int),
        decreases bytes.len() - at,
    {
        at = at + 1;
    }
    at - from
}

/// Whether a call's extent holds `offset`: what was parsed, and the white space behind it that is
/// still being typed into. Right where real source resumes, only a call with a parameter left
/// unfilled does.
pub open spec fn covered(call: CommandCall, offset: int, bytes: Seq<u8>) -> bool {
    let end = call.span.end as int;
    let reach = end + white_run(bytes, end);
    call.span.has(offset) || (end <= offset <= reach && (offset < reach || reach == bytes.len()
        || aligned(call.args@, call.cmd.params@, 0, 0, offset, bytes).0
        < call.cmd.params@.len()))
}

pub fn covers(call: &CommandCall, offset: usize, src: &str) -> (r: bool)
    ensures
        r == covered(*call, offset as int, encode_utf8(src@)),
{
    if call.span.contains(offset) {
        return true;
    }
    let end = call.span.end;
    let len = src.as_bytes().len();
    let white = trailing_whitespace_len(src, end);
    let reach = if white > 0 {
        end + white
    } else {
        end
    };
    if !(end <= offset && offset <= reach) {
        return false;
    }
    if offset < reach || reach == len {
        return true;
    }
    let (index, _) = align_arg_to_param(&call.args, &call.cmd.params, offset, src);
    index < call.cmd.params.len()
}

/// Which calls cover an offset.
pub open spec fn covering(calls: Seq<CommandCall>, offset: int, bytes: Seq<u8>) -> spec_fn(
    int,
) -> bool {
    |k: int| covered(calls[k], offset, bytes)
}

/// Where a cursor sits with respect to a call: the call, by its place in the list, and the parameter
/// it is inside or immediately before. The parameter can be one past the last argument parsed.
#[derive(Debug, Clone, Copy, PartialEq, Eq, Structural)]
pub struct CallSite {
    pub call: usize,
    pub index: usize,
}

/// The innermost call that covers an offset and the parameter there. None inside the music of a
/// call, where no nested call covers the offset.
pub open spec fn call_site(calls: Seq<CommandCall>, offset: int, src: Seq<char>) -> Option<
    CallSite,
> {
    let bytes = encode_utf8(src);
    match last_below(calls.len() as int, covering(calls, offset, bytes)) {
        None => None,
        Some(c) => {
            let call = calls[c as int];
            let (p, found) = aligned(call.args@, call.cmd.params@, 0, 0, offset, bytes);
            let in_music = match found {
                Some(k) => match call.args@[k] {
                    Arg::Music { span } => span.start < offset < span.end,
                    _ => false,
                },
                None => false,
            };
            if in_music {
                None
            } else {
                Some(CallSite { call: c, index: p as usize })
            }
        },
    }
}

/// Of calls in source order, the last one that covers an offset is the innermost: none of those that
/// do starts later.
pub proof fn law_the_last_covering_call_is_innermost(calls: Seq<CommandCall>, offset: int, bytes: Seq<
    u8,
>)
    requires
        in_order(calls),
        calls.len() <= usize::MAX,
    ensures
        match last_below(calls.len() as int, covering(calls, offset, bytes)) {
            Some(c) => c < calls.len() && covered(calls[c as int], offset, bytes) && forall|j: int|
                0 <= j < calls.len() && covered(#[trigger] calls[j], offset, bytes)
                    ==> calls[j].keyword.start <= calls[c as int].keyword.start,
            None => forall|j: int|
                0 <= j < calls.len() ==> !covered(#[trigger] calls[j], offset, bytes),
        },
{
    let fits = covering(calls, offset, bytes);
    lemma_last_below(calls.len() as int, fits);
    match last_below(calls.len() as int, fits) {
        Some(c) => {
            assert forall|j: int|
                0 <= j < calls.len() && covered(
                    #[trigger] calls[j],
                    offset,
                    bytes,
                ) implies calls[j].keyword.start <= calls[c as int].keyword.start by {
                assert(fits(j));
            }
        },
        None => {
            assert forall|j: int| 0 <= j < calls.len() implies !covered(
                #[trigger] calls[j],
                offset,
                bytes,
            ) by {
                assert(!fits(j));
            }
        },
    }
}

impl Commands {
    /// The innermost call containing `offset`, and the argument position within it.
    pub fn call_site_at(&self, offset: usize, src: &str) -> (r: Option<CallSite>)
        requires
            self.wf(),
        ensures
            r == call_site(self.calls@, offset as int, src@),
            r is Some ==> r->0.call < self.calls@.len(),
    {
        let ghost bytes = encode_utf8(src@);
        let ghost fits = covering(self.calls@, offset as int, bytes);
        let mut k: usize = self.calls.len();
        while k > 0 && !covers(&self.calls[k - 1], offset, src)
            invariant
                k <= self.calls@.len(),
                bytes == encode_utf8(src@),
                fits == covering(self.calls@, offset as int, bytes),
                last_below(self.calls@.len() as int, fits) == last_below(k as int, fits),
            decreases k,
        {
            k = k - 1;
        }
        if k == 0 {
            return None;
        }
        let call = &self.calls[k - 1];
        let (index, matched) = align_arg_to_param(&call.args, &call.cmd.params, offset, src);
        match matched {
            Some(m) => match &call.args[m] {
                Arg::Music { span } => {
                    if span.start < offset && offset < span.end {
                        return None;
                    }
                },
                _ => {},
            },
            None => {},
        }
        Some(CallSite { call: k - 1, index })
    }
}

/// What a command may consult while checking a call: the lines of the document and all its calls.
pub struct CheckContext<'a> {
    pub lines: &'a LineIndex,
    pub calls: &'a Commands,
}

/// Which calls have a span in their body.
pub open spec fn body_holds(calls: Seq<CommandCall>, span: Span) -> spec_fn(int) -> bool {
    |k: int|
        match first_music(calls[k].args@) {
            Some(body) => body.start <= span.start && span.end <= body.end,
            None => false,
        }
}

impl<'a> CheckContext<'a> {
    pub open spec fn wf(self) -> bool {
        self.lines.wf() && self.calls.wf()
    }

    pub fn new(lines: &'a LineIndex, calls: &'a Commands) -> (r: Self)
        ensures
            r.lines == lines,
            r.calls == calls,
    {
        Self { lines, calls }
    }

    /// The innermost call whose body contains `span`: the last of those in source order.
    pub fn enclosing(&self, span: Span) -> (r: Option<usize>)
        requires
            self.wf(),
        ensures
            r == last_below(self.calls.calls@.len() as int, body_holds(self.calls.calls@, span)),
            r is Some ==> r->0 < self.calls.calls@.len(),
    {
        let calls = &self.calls.calls;
        let ghost fits = body_holds(calls@, span);
        let mut k: usize = calls.len();
        while k > 0
            invariant
                k <= calls@.len(),
                calls@ == self.calls.calls@,
                fits == body_holds(calls@, span),
                last_below(calls@.len() as int, fits) == last_below(k as int, fits),
            decreases k,
        {
            match calls[k - 1].body() {
                Some(body) => {
                    if body.start <= span.start && span.end <= body.end {
                        return Some(k - 1);
                    }
                },
                None => {},
            }
            k = k - 1;
        }
        None
    }

    pub fn error(&self, span: Span, message: String) -> (r: Diagnostic)
        requires
            self.wf(),
        ensures
            r@ == complaint(self.lines.bytes(), span, Severity::Error, message@),
    {
        self.diagnostic(span, Severity::Error, message)
    }

    pub fn warning(&self, span: Span, message: String) -> (r: Diagnostic)
        requires
            self.wf(),
        ensures
            r@ == complaint(self.lines.bytes(), span, Severity::Warning, message@),
    {
        self.diagnostic(span, Severity::Warning, message)
    }

    /// Builds a diagnostic at `span`.
    fn diagnostic(&self, span: Span, severity: Severity, message: String) -> (r: Diagnostic)
        requires
            self.wf(),
        ensures
            r@ == complaint(self.lines.bytes(), span, severity, message@),
    {
        Diagnostic { range: self.lines.range_of(span), severity, message }
    }
}

/// A complaint about a span.
pub open spec fn complaint(bytes: Seq<u8>, span: Span, severity: Severity, message: Seq<char>) -> DiagnosticView {
    DiagnosticView { range: range_between(bytes, span), severity, message }
}

/// The arguments of a call and, one level deep, those of each group among them.
pub open spec fn flattened_args(args: Seq<Arg>) -> Seq<Arg>
    decreases args.len(),
{
    if args.len() == 0 {
        args
    } else {
        let before = flattened_args(args.drop_last());
        match args.last() {
            Arg::Group { args: inner, .. } => before.push(args.last()) + inner@,
            _ => before.push(args.last()),
        }
    }
}

/// `args` and, one level deep, whatever a group among them holds.
pub fn flat_args(args: &Vec<Arg>) -> (r: Vec<&Arg>)
    ensures
        r@.unref() == flattened_args(args@),
{
    let mut out: Vec<&Arg> = Vec::new();
    let mut k: usize = 0;
    assert(args@.subrange(0, 0) =~= Seq::empty());
    assert(out@.unref() =~= Seq::empty());
    while k < args.len()
        invariant
            k <= args@.len(),
            out@.unref() == flattened_args(args@.subrange(0, k as int)),
        decreases args.len() - k,
    {
        let ghost before = out@;
        assert(args@.subrange(0, k + 1).drop_last() =~= args@.subrange(0, k as int));
        out.push(&args[k]);
        assert(out@.unref() =~= before.unref().push(args@[k as int]));
        match &args[k] {
            Arg::Group { args: inner, .. } => {
                let ghost outer = out@.unref();
                let mut m: usize = 0;
                assert(out@.unref() =~= outer + inner@.subrange(0, 0));
                while m < inner.len()
                    invariant
                        m <= inner@.len(),
                        out@.unref() == outer + inner@.subrange(0, m as int),
                    decreases inner.len() - m,
                {
                    let ghost last = out@;
                    out.push(&inner[m]);
                    assert(out@.unref() =~= last.unref().push(inner@[m as int]));
                    assert(out@.unref() =~= outer + inner@.subrange(0, m + 1));
                    m = m + 1;
                }
                assert(inner@.subrange(0, m as int) =~= inner@);
            },
            _ => {},
        }
        k = k + 1;
    }
    assert(args@.subrange(0, k as int) =~= args@);
    out
}

} // verus!
