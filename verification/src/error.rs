//! The diagnostics recorder: offset-tagged errors and warnings, and their
//! rendering against the source text.

use crate::line_pos::{col_of, line_of, line_text, normalized, LinePos};
use crate::text::{chars_of, decimal, push_chars, push_decimal, push_repeated, trimmed_end, trimmed_end_of};
use vstd::prelude::*;

verus! {

/// A message attached to a character offset of the source, as contracts see it.
pub struct Diag {
    pub offset: int,
    pub msg: Seq<char>,
}

/// A message attached to a character offset of the source.
#[derive(Debug, Clone)]
pub struct OffsetError {
    pub offset: usize,
    pub msg: String,
}

impl View for OffsetError {
    type V = Diag;

    open spec fn view(&self) -> Diag {
        Diag { offset: self.offset as int, msg: self.msg@ }
    }
}

/// The views of a sequence of recorded messages, in the same order.
pub open spec fn diags(v: Seq<OffsetError>) -> Seq<Diag> {
    Seq::new(v.len(), |i: int| v[i]@)
}

/// The two severities of a diagnostic. Errors block the token output;
/// warnings never do.
#[derive(Debug, Clone, Copy, PartialEq, Eq, Structural)]
pub enum Severity {
    Error,
    Warning,
}

/// The word that names a severity in a rendered diagnostic.
pub open spec fn level_name(severity: Severity) -> Seq<char> {
    match severity {
        Severity::Error => "Error"@,
        Severity::Warning => "Warning"@,
    }
}

impl Severity {
    /// The word that names the severity in a rendered diagnostic.
    pub fn name(self) -> (r: &'static str)
        ensures
            r@ == level_name(self),
    {
        match self {
            Severity::Error => "Error",
            Severity::Warning => "Warning",
        }
    }
}

/// The three lines of a rendered diagnostic: a header with the position,
/// the level and the message, the text of the source line, and a caret
/// under column `col`.
pub open spec fn framed(
    level: Seq<char>,
    file: Seq<char>,
    line: nat,
    col: nat,
    msg: Seq<char>,
    text: Seq<char>,
) -> Seq<char> {
    "["@ + file + ":"@ + decimal(line) + ":"@ + decimal(col) + "] "@ + level + ": "@ + msg + "\n"@
        + "    "@ + text + "\n"@ + "    "@ + Seq::new(
        if col >= 1 {
            (col - 1) as nat
        } else {
            0
        },
        |i: int| ' ',
    ) + "^\n"@
}

/// One rendered diagnostic: its position in the text `content`, and the
/// line that holds it, without the white space at the line's end.
pub open spec fn located(level: Seq<char>, content: Seq<char>, file: Seq<char>, d: Diag) -> Seq<
    char,
> {
    let line = line_of(content, d.offset);
    let col = col_of(content, d.offset);
    let text = match line_text(content, line) {
        Some(t) => t,
        None => Seq::empty(),
    };
    framed(level, file, line as nat, col as nat, d.msg, trimmed_end(text))
}

/// Renders a diagnostic at a known position, over the text `text` of its
/// line:
///
/// ```text
/// [file_name:line:col] level: msg
///     text
///     ^
/// ```
pub fn frame(level: &str, file_name: &str, line: usize, col: usize, msg: &str, text: &str) -> (r:
    String)
    ensures
        r@ == framed(level@, file_name@, line as nat, col as nat, msg@, text@),
{
    let mut out = String::from_str("[");
    out.append(file_name);
    out.append(":");
    push_decimal(&mut out, line);
    out.append(":");
    push_decimal(&mut out, col);
    out.append("] ");
    out.append(level);
    out.append(": ");
    out.append(msg);
    out.append("\n");
    out.append("    ");
    out.append(text);
    out.append("\n");
    out.append("    ");
    let indent = if col >= 1 {
        col - 1
    } else {
        0
    };
    push_repeated(&mut out, ' ', indent);
    out.append("^\n");
    out
}

impl OffsetError {
    /// Renders `e` at severity `level` against the indexed source: the
    /// position of `e`, its message, and the line that holds it, without
    /// the white space at the line's end.
    pub fn display_with(level: &str, line_pos: &LinePos, file_name: &str, e: &OffsetError) -> (r:
        String)
        ensures
            r@ == located(level@, line_pos@, file_name@, e@),
    {
        let (line, col) = line_pos.line_col(e.offset);
        let mut text = String::new();
        match line_pos.get_line(line) {
            Some(whole) => {
                let chars = chars_of(whole.as_str());
                let end = trimmed_end_of(&chars, 0, chars.len());
                assert(chars@.subrange(0, chars@.len() as int) =~= chars@);
                push_chars(&mut text, &chars, 0, end);
                assert(text@ =~= trimmed_end(whole@));
            },
            None => {
                assert(trimmed_end(Seq::<char>::empty()) =~= Seq::<char>::empty());
            },
        }
        frame(level, file_name, line, col, e.msg.as_str(), text.as_str())
    }
}

/// What a recorder holds, as contracts see it: the errors and the warnings,
/// each in the order in which they were recorded.
pub struct Diagnostics {
    pub errors: Seq<Diag>,
    pub warnings: Seq<Diag>,
}

/// A diagnostic together with its severity.
pub struct Report {
    pub severity: Severity,
    pub diag: Diag,
}

/// The diagnostics `d`, each at severity `severity`.
pub open spec fn tagged(d: Seq<Diag>, severity: Severity) -> Seq<Report> {
    Seq::new(d.len(), |i: int| Report { severity, diag: d[i] })
}

/// All diagnostics of a recorder: the errors, then the warnings.
pub open spec fn merged(d: Diagnostics) -> Seq<Report> {
    tagged(d.errors, Severity::Error) + tagged(d.warnings, Severity::Warning)
}

/// Where `r` goes into `s` so that it follows every report whose offset is
/// not greater than its own.
pub open spec fn insert_pos(s: Seq<Report>, r: Report) -> int
    decreases s.len(),
{
    if s.len() > 0 && s.last().diag.offset > r.diag.offset {
        insert_pos(s.drop_last(), r)
    } else {
        s.len() as int
    }
}

/// The reports of `s` in ascending order of offset; reports at the same
/// offset keep the order they have in `s`.
pub open spec fn sorted_by_offset(s: Seq<Report>) -> Seq<Report>
    decreases s.len(),
{
    if s.len() == 0 {
        s
    } else {
        let front = sorted_by_offset(s.drop_last());
        front.insert(insert_pos(front, s.last()), s.last())
    }
}

/// Whether offsets never decrease along `s`.
pub open spec fn ascending(s: Seq<Report>) -> bool {
    forall|i: int, j: int| 0 <= i < j < s.len() ==> s[i].diag.offset <= s[j].diag.offset
}

/// The reports of `s` that stand at offset `k`, in the order they have in `s`.
pub open spec fn at_offset(s: Seq<Report>, k: int) -> Seq<Report>
    decreases s.len(),
{
    if s.len() == 0 {
        s
    } else if s.last().diag.offset == k {
        at_offset(s.drop_last(), k).push(s.last())
    } else {
        at_offset(s.drop_last(), k)
    }
}

/// The insertion position lies within the sequence, everything from it on
/// has a greater offset, and what stands just before it does not.
pub proof fn lemma_insert_pos(s: Seq<Report>, r: Report)
    ensures
        0 <= insert_pos(s, r) <= s.len(),
        forall|k: int| insert_pos(s, r) <= k < s.len() ==> s[k].diag.offset > r.diag.offset,
        insert_pos(s, r) > 0 ==> s[insert_pos(s, r) - 1].diag.offset <= r.diag.offset,
    decreases s.len(),
{
    if s.len() > 0 && s.last().diag.offset > r.diag.offset {
        lemma_insert_pos(s.drop_last(), r);
        let p = insert_pos(s, r);
        assert forall|k: int| p <= k < s.len() implies s[k].diag.offset > r.diag.offset by {
            if k < s.len() - 1 {
                assert(s.drop_last()[k] == s[k]);
            }
        }
        if p > 0 {
            assert(s.drop_last()[p - 1] == s[p - 1]);
        }
    }
}

/// The reports at an offset, taken from two sequences in a row.
proof fn lemma_at_offset_concat(a: Seq<Report>, b: Seq<Report>, k: int)
    ensures
        at_offset(a + b, k) == at_offset(a, k) + at_offset(b, k),
    decreases b.len(),
{
    if b.len() == 0 {
        assert(a + b =~= a);
        assert(at_offset(a, k) + at_offset(b, k) =~= at_offset(a, k));
    } else {
        assert((a + b).drop_last() =~= a + b.drop_last());
        lemma_at_offset_concat(a, b.drop_last(), k);
        if b.last().diag.offset == k {
            assert((at_offset(a, k) + at_offset(b.drop_last(), k)).push(b.last()) =~= at_offset(
                a,
                k,
            ) + at_offset(b.drop_last(), k).push(b.last()));
        }
    }
}

/// No report stands at an offset that no report has.
proof fn lemma_at_offset_none(s: Seq<Report>, k: int)
    requires
        forall|i: int| 0 <= i < s.len() ==> s[i].diag.offset != k,
    ensures
        at_offset(s, k) == Seq::<Report>::empty(),
    decreases s.len(),
{
    if s.len() > 0 {
        lemma_at_offset_none(s.drop_last(), k);
    }
}

/// Sorting keeps the number of reports.
pub proof fn lemma_sorted_len(s: Seq<Report>)
    ensures
        sorted_by_offset(s).len() == s.len(),
    decreases s.len(),
{
    if s.len() > 0 {
        lemma_sorted_len(s.drop_last());
        lemma_insert_pos(sorted_by_offset(s.drop_last()), s.last());
    }
}

/// Sorted reports stand in ascending order of offset.
pub proof fn lemma_sorted_ascending(s: Seq<Report>)
    ensures
        ascending(sorted_by_offset(s)),
    decreases s.len(),
{
    if s.len() > 0 {
        let front = sorted_by_offset(s.drop_last());
        lemma_sorted_ascending(s.drop_last());
        lemma_insert_pos(front, s.last());
        let p = insert_pos(front, s.last());
        let out = front.insert(p, s.last());
        assert forall|i: int, j: int| 0 <= i < j < out.len() implies out[i].diag.offset
            <= out[j].diag.offset by {
            if i < p && p > 0 {
                assert(front[i].diag.offset <= front[p - 1].diag.offset);
            }
        }
    }
}

/// Sorting is stable: at every offset, the sorted reports are the given
/// reports at that offset, in the order in which they were given.
pub proof fn lemma_sorted_stable(s: Seq<Report>, k: int)
    ensures
        at_offset(sorted_by_offset(s), k) == at_offset(s, k),
    decreases s.len(),
{
    if s.len() > 0 {
        let front = sorted_by_offset(s.drop_last());
        let r = s.last();
        lemma_sorted_stable(s.drop_last(), k);
        lemma_insert_pos(front, r);
        let p = insert_pos(front, r);
        let head = front.take(p);
        let tail = front.skip(p);
        assert(front =~= head + tail);
        assert(front.insert(p, r) =~= head.push(r) + tail);
        lemma_at_offset_concat(head, tail, k);
        lemma_at_offset_concat(head.push(r), tail, k);
        assert(head.push(r).drop_last() =~= head);
        if r.diag.offset == k {
            lemma_at_offset_none(tail, k);
            assert(at_offset(head, k) + Seq::<Report>::empty() =~= at_offset(head, k));
            assert(at_offset(head, k).push(r) + Seq::<Report>::empty() =~= at_offset(head, k).push(r));
        }
    }
}

/// The rendered reports, one after another.
pub open spec fn rendered(reports: Seq<Report>, content: Seq<char>, file: Seq<char>) -> Seq<char>
    decreases reports.len(),
{
    if reports.len() == 0 {
        Seq::empty()
    } else {
        rendered(reports.drop_last(), content, file) + located(
            level_name(reports.last().severity),
            content,
            file,
            reports.last().diag,
        )
    }
}

/// The full report of a run: errors and warnings merged, sorted by offset
/// (stably: at one offset errors come before warnings, and each kind keeps
/// its recording order), each rendered against the normalized source.
pub open spec fn render(d: Diagnostics, file: Seq<char>, source: Seq<char>) -> Seq<char> {
    rendered(sorted_by_offset(merged(d)), normalized(source), file)
}

/// A place in the sorted order: which list a diagnostic comes from, and
/// where it stands in that list.
struct Slot {
    offset: usize,
    severity: Severity,
    index: usize,
}

/// The ordered collection of the diagnostics of one run.
#[derive(Debug, Clone)]
pub struct ErrorRecorder {
    errors: Vec<OffsetError>,
    warnings: Vec<OffsetError>,
}

impl View for ErrorRecorder {
    type V = Diagnostics;

    closed spec fn view(&self) -> Diagnostics {
        Diagnostics { errors: diags(self.errors@), warnings: diags(self.warnings@) }
    }
}

impl ErrorRecorder {
    /// A recorder that holds nothing.
    pub fn new() -> (r: Self)
        ensures
            r@.errors == Seq::<Diag>::empty(),
            r@.warnings == Seq::<Diag>::empty(),
    {
        let r = Self { errors: Vec::new(), warnings: Vec::new() };
        assert(r@.errors =~= Seq::<Diag>::empty());
        assert(r@.warnings =~= Seq::<Diag>::empty());
        r
    }

    /// Records an error and hands its message back as the reason to give up.
    pub fn hard<T>(&mut self, offset: usize, msg: &str) -> (r: Result<T, String>)
        ensures
            final(self)@.errors == old(self)@.errors.push(Diag { offset: offset as int, msg: msg@ }),
            final(self)@.warnings == old(self)@.warnings,
            r is Err,
            r->Err_0@ == msg@,
    {
        self.error(offset, msg);
        Err(String::from_str(msg))
    }

    /// Records an error at `offset`.
    pub fn error(&mut self, offset: usize, msg: &str)
        ensures
            final(self)@.errors == old(self)@.errors.push(Diag { offset: offset as int, msg: msg@ }),
            final(self)@.warnings == old(self)@.warnings,
    {
        self.errors.push(OffsetError { offset, msg: String::from_str(msg) });
        assert(self@.errors =~= old(self)@.errors.push(Diag { offset: offset as int, msg: msg@ }));
    }

    /// Records a warning at `offset`.
    pub fn warning(&mut self, offset: usize, msg: &str)
        ensures
            final(self)@.warnings == old(self)@.warnings.push(
                Diag { offset: offset as int, msg: msg@ },
            ),
            final(self)@.errors == old(self)@.errors,
    {
        self.warnings.push(OffsetError { offset, msg: String::from_str(msg) });
        assert(self@.warnings =~= old(self)@.warnings.push(
            Diag { offset: offset as int, msg: msg@ },
        ));
    }

    /// Whether no error was recorded. Warnings do not count.
    pub fn no_error(&self) -> (r: bool)
        ensures
            r == (self@.errors.len() == 0),
    {
        self.errors.len() == 0
    }

    /// Whether any error was recorded. Warnings do not count.
    pub fn has_errors(&self) -> (r: bool)
        ensures
            r == (self@.errors.len() > 0),
    {
        self.errors.len() > 0
    }

    /// The recorded errors, in recording order.
    pub fn errors(&self) -> (r: &Vec<OffsetError>)
        ensures
            diags(r@) == self@.errors,
    {
        &self.errors
    }

    /// The recorded warnings, in recording order.
    pub fn warnings(&self) -> (r: &Vec<OffsetError>)
        ensures
            diags(r@) == self@.warnings,
    {
        &self.warnings
    }

    /// The recorded diagnostics of one severity.
    spec fn source(&self, severity: Severity) -> Seq<OffsetError> {
        match severity {
            Severity::Error => self.errors@,
            Severity::Warning => self.warnings@,
        }
    }

    /// The diagnostic that a slot stands for.
    spec fn report_of(&self, slot: Slot) -> Report {
        Report { severity: slot.severity, diag: self.source(slot.severity)[slot.index as int]@ }
    }

    /// Whether a slot stands for a recorded diagnostic and carries its offset.
    spec fn slot_ok(&self, slot: Slot) -> bool {
        &&& slot.index < self.source(slot.severity).len()
        &&& slot.offset as int == self.report_of(slot).diag.offset
    }

    /// The diagnostics that the slots stand for, in the order of the slots.
    spec fn reports_of(&self, order: Seq<Slot>) -> Seq<Report> {
        Seq::new(order.len(), |i: int| self.report_of(order[i]))
    }

    /// Puts `slot` into `order` behind every slot whose offset is not greater.
    fn place(&self, order: &mut Vec<Slot>, slot: Slot)
        requires
            self.slot_ok(slot),
            forall|i: int| 0 <= i < old(order)@.len() ==> self.slot_ok(#[trigger] old(order)@[i]),
        ensures
            forall|i: int| 0 <= i < final(order)@.len() ==> self.slot_ok(#[trigger] final(order)@[i]),
            self.reports_of(final(order)@) == self.reports_of(old(order)@).insert(
                insert_pos(self.reports_of(old(order)@), self.report_of(slot)),
                self.report_of(slot),
            ),
    {
        let ghost before = self.reports_of(order@);
        let ghost r = self.report_of(slot);
        let mut p: usize = order.len();
        assert(before.take(p as int) =~= before);
        while p > 0 && order[p - 1].offset > slot.offset
            invariant
                p <= order@.len(),
                order@ == old(order)@,
                before == self.reports_of(order@),
                r == self.report_of(slot),
                self.slot_ok(slot),
                forall|i: int| 0 <= i < order@.len() ==> self.slot_ok(#[trigger] order@[i]),
                insert_pos(before, r) == insert_pos(before.take(p as int), r),
            decreases p,
        {
            proof {
                let cur = before.take(p as int);
                assert(self.slot_ok(order@[p - 1]));
                assert(cur.last() == before[p - 1]);
                assert(cur.drop_last() =~= before.take(p - 1));
            }
            p -= 1;
        }
        proof {
            let cur = before.take(p as int);
            if p > 0 {
                assert(self.slot_ok(order@[p - 1]));
                assert(cur.last() == before[p - 1]);
            }
            assert(insert_pos(cur, r) == p);
        }
        order.insert(p, slot);
        proof {
            assert(self.reports_of(order@) =~= before.insert(p as int, r));
        }
    }

    /// Renders every recorded diagnostic against `content`, in ascending
    /// order of offset. Diagnostics at one offset keep their recording
    /// order, errors before warnings.
    pub fn display_with(&self, file_name: &str, content: &str) -> (r: String)
        ensures
            r@ == render(self@, file_name@, content@),
    {
        let line_pos = LinePos::new(content);
        let mut order: Vec<Slot> = Vec::new();
        let ghost all = merged(self@);
        let mut i: usize = 0;
        assert(self.reports_of(order@) =~= sorted_by_offset(all.take(0)));
        while i < self.errors.len()
            invariant
                i <= self.errors@.len(),
                all == merged(self@),
                forall|k: int| 0 <= k < order@.len() ==> self.slot_ok(#[trigger] order@[k]),
                self.reports_of(order@) == sorted_by_offset(all.take(i as int)),
            decreases self.errors.len() - i,
        {
            let slot = Slot { offset: self.errors[i].offset, severity: Severity::Error, index: i };
            proof {
                let next = all.take(i + 1);
                assert(next.drop_last() =~= all.take(i as int));
                assert(next.last() == self.report_of(slot));
            }
            self.place(&mut order, slot);
            i += 1;
        }
        let ghost n = self.errors@.len() as int;
        let mut j: usize = 0;
        while j < self.warnings.len()
            invariant
                j <= self.warnings@.len(),
                n == self.errors@.len(),
                all == merged(self@),
                forall|k: int| 0 <= k < order@.len() ==> self.slot_ok(#[trigger] order@[k]),
                self.reports_of(order@) == sorted_by_offset(all.take(n + j)),
            decreases self.warnings.len() - j,
        {
            let slot = Slot {
                offset: self.warnings[j].offset,
                severity: Severity::Warning,
                index: j,
            };
            proof {
                let next = all.take(n + j + 1);
                assert(next.drop_last() =~= all.take(n + j));
                assert(next.last() == self.report_of(slot));
            }
            self.place(&mut order, slot);
            j += 1;
        }
        assert(all.take(n + j) =~= all);
        let ghost sorted = sorted_by_offset(all);
        let mut out = String::new();
        let mut k: usize = 0;
        assert(sorted.take(0) =~= Seq::<Report>::empty());
        while k < order.len()
            invariant
                k <= order@.len(),
                sorted == self.reports_of(order@),
                forall|m: int| 0 <= m < order@.len() ==> self.slot_ok(#[trigger] order@[m]),
                line_pos@ == normalized(content@),
                out@ == rendered(sorted.take(k as int), line_pos@, file_name@),
            decreases order.len() - k,
        {
            proof {
                let next = sorted.take(k + 1);
                assert(next.drop_last() =~= sorted.take(k as int));
                assert(next.last() == self.report_of(order@[k as int]));
                assert(self.slot_ok(order@[k as int]));
            }
            let severity = order[k].severity;
            let e = match severity {
                Severity::Error => &self.errors[order[k].index],
                Severity::Warning => &self.warnings[order[k].index],
            };
            let piece = OffsetError::display_with(severity.name(), &line_pos, file_name, e);
            out.append(piece.as_str());
            k += 1;
        }
        assert(sorted.take(k as int) =~= sorted);
        out
    }
}

} // verus!
