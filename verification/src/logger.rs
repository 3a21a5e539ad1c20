use vstd::prelude::*;
use crate::clock::{format_millis, four_digit_year, millis_text, now, parse_rfc3339, rfc3339_instant, to_millis};
use crate::models::{EntryId, LogEvent, LogLine, LogMessage, LogResponse, Timestamp, level_text};
use crate::text::{
    chars_equal, chars_of, decimal, digits_value, find_first, first_occurrence, has_prefix,
    parse_u32, parses_as_u32, string_from_chars, starts_with, u64_to_decimal, unsigned_digits, views,
};
use vstd::utf8::encode_utf8;

verus! {

/// The size at which the current log file is rotated: 1 MB.
pub const MAX_SEGMENT_BYTES: u64 = 1_000_000;

/// How many rotated segments are kept besides the current file.
pub const MAX_SEGMENTS: usize = 5;

/// The most an entry's logs hold together: five rotated segments and the current file.
pub const MAX_TOTAL_BYTES: u64 = MAX_SEGMENT_BYTES * 6;

/// The number of bytes of a text in UTF-8, as `str::len` reports it.
pub open spec fn utf8_len(s: Seq<char>) -> nat {
    (encode_utf8(s).len() as usize) as nat
}

/// A line of `n` bytes written to a current file of `size` bytes starts a new file
/// first: when it would pass the segment size and the current file is not empty.
pub open spec fn should_rotate(size: int, n: int) -> bool {
    size + n > MAX_SEGMENT_BYTES && size > 0
}

/// The size of the current file after a line of `n` bytes is written.
pub open spec fn size_after(size: int, n: int) -> int {
    if should_rotate(size, n) {
        n
    } else {
        size + n
    }
}

/// The current file stays within the segment size: after a line is written its size
/// is at most 1 MB, or it holds that one line alone.
pub proof fn law_segment_stays_small(size: int, n: int)
    requires
        0 <= size,
        0 <= n,
    ensures
        size_after(size, n) <= MAX_SEGMENT_BYTES || size_after(size, n) == n,
{
}

/// A line starts a new file only when it must: never while the current file is
/// empty or the line still fits within the segment size, always when the current
/// file holds something and the line would take it past that size.
pub proof fn law_rotates_only_when_full(size: int, n: int)
    ensures
        size == 0 ==> !should_rotate(size, n),
        size + n <= MAX_SEGMENT_BYTES ==> !should_rotate(size, n),
        size > 0 && size + n > MAX_SEGMENT_BYTES ==> should_rotate(size, n),
        should_rotate(size, n) ==> size_after(size, n) == n,
        !should_rotate(size, n) ==> size_after(size, n) == size + n,
{
}

/// A log line without its line break: `<timestamp> [<level>] <message>`.
pub open spec fn log_line_text(ts: Seq<char>, level: Seq<char>, msg: Seq<char>) -> Seq<char> {
    ts + " ["@ + level + "] "@ + msg
}

/// The text of a log line, line break included.
pub fn compose_log_line(ts: &str, level: &str, msg: &str) -> (line: String)
    ensures
        line@ == log_line_text(ts@, level@, msg@) + "\n"@,
{
    let mut line = String::from_str(ts);
    line.append(" [");
    line.append(level);
    line.append("] ");
    line.append(msg);
    line.append("\n");
    line
}

/// The message written for a log event.
pub open spec fn event_text(e: LogEvent) -> Seq<char> {
    match e {
        LogEvent::ConnectionAccepted { source } => "connection accepted from "@ + source@,
        LogEvent::ConnectionClosed { bytes_in, bytes_out, duration_ms } => "connection closed | bytes_in="@
            + decimal(bytes_in as nat) + " bytes_out="@ + decimal(bytes_out as nat) + " duration_ms="@
            + decimal(duration_ms as nat),
        LogEvent::ConnectionError { error } => "connection error: "@ + error@,
        LogEvent::ForwarderStarted => "forwarder started"@,
        LogEvent::ForwarderStopped => "forwarder stopped"@,
    }
}

/// The message written for a log event.
pub fn format_event(event: &LogEvent) -> (s: String)
    ensures
        s@ == event_text(*event),
{
    match event {
        LogEvent::ConnectionAccepted { source } => {
            let mut s = String::from_str("connection accepted from ");
            s.append(source.as_str());
            s
        },
        LogEvent::ConnectionClosed { bytes_in, bytes_out, duration_ms } => {
            let mut s = String::from_str("connection closed | bytes_in=");
            let a = u64_to_decimal(*bytes_in);
            s.append(a.as_str());
            s.append(" bytes_out=");
            let b = u64_to_decimal(*bytes_out);
            s.append(b.as_str());
            s.append(" duration_ms=");
            let c = u64_to_decimal(*duration_ms);
            s.append(c.as_str());
            s
        },
        LogEvent::ConnectionError { error } => {
            let mut s = String::from_str("connection error: ");
            s.append(error.as_str());
            s
        },
        LogEvent::ForwarderStarted => String::from_str("forwarder started"),
        LogEvent::ForwarderStopped => String::from_str("forwarder stopped"),
    }
}

/// What writing one line asks of the files: start a new current file first when
/// `rotate` holds, then append `line`, which is `bytes` bytes long, to the current
/// file. `instant` is the time stamped on the line.
pub struct LogWrite {
    pub rotate: bool,
    pub line: String,
    pub bytes: u64,
    pub instant: Timestamp,
}

/// The logger of one entry: keeps the size of the current log file and decides when
/// the files rotate. The files themselves are written by the caller, which reports
/// back each rotation and each line written.
pub struct EntryLogger {
    entry_id: EntryId,
    dir: String,
    current_size: u64,
}

/// The size of the current file after a write of `n` bytes, counted as the caller
/// reports it: zero after a rotation, then the line added.
pub proof fn law_recorded_size(size: int, n: int)
    ensures
        (if should_rotate(size, n) { 0 } else { size }) + n == size_after(size, n),
{
}

impl EntryLogger {
    /// The size of the current log file in bytes.
    pub closed spec fn size_view(&self) -> nat {
        self.current_size as nat
    }

    /// The entry whose logs these are.
    pub closed spec fn entry_view(&self) -> EntryId {
        self.entry_id
    }

    /// The directory of the log files.
    pub closed spec fn dir_view(&self) -> Seq<char> {
        self.dir@
    }

    /// A logger for the files in `dir`, whose current file holds `current_size` bytes.
    pub fn new(dir: String, entry_id: EntryId, current_size: u64) -> (l: Self)
        ensures
            l.dir_view() == dir@,
            l.entry_view() == entry_id,
            l.size_view() == current_size,
    {
        EntryLogger { entry_id, dir, current_size }
    }

    /// The directory of the log files.
    pub fn dir(&self) -> (d: &str)
        ensures
            d@ == self.dir_view(),
    {
        self.dir.as_str()
    }

    /// The size of the current log file in bytes.
    pub fn current_size(&self) -> (n: u64)
        ensures
            n == self.size_view(),
    {
        self.current_size
    }

    /// What writing `line`, stamped at `instant`, asks of the files: whether they
    /// rotate first, judged by the size of the current file and the line's length.
    fn plan_line(&self, line: String, instant: Timestamp) -> (w: LogWrite)
        ensures
            w.line == line,
            w.instant == instant,
            w.bytes == utf8_len(line@),
            w.rotate == should_rotate(self.size_view() as int, w.bytes as int),
    {
        let n: u64 = line.as_str().len() as u64;
        let rotate = if n > MAX_SEGMENT_BYTES || self.current_size > MAX_SEGMENT_BYTES - n {
            self.current_size > 0
        } else {
            false
        };
        LogWrite { rotate, line, bytes: n, instant }
    }

    /// Records that the files were rotated: the new current file is empty.
    pub fn record_rotation(&mut self)
        ensures
            final(self).size_view() == 0,
            final(self).dir_view() == old(self).dir_view(),
            final(self).entry_view() == old(self).entry_view(),
    {
        self.current_size = 0;
    }

    /// Records that a line of `bytes` bytes was written to the current file.
    pub fn record_written(&mut self, bytes: u64)
        requires
            old(self).size_view() + bytes <= u64::MAX,
        ensures
            final(self).size_view() == old(self).size_view() + bytes,
            final(self).dir_view() == old(self).dir_view(),
            final(self).entry_view() == old(self).entry_view(),
    {
        self.current_size = self.current_size + bytes;
    }

    /// The write of a line at `level` stamped with the current time.
    fn write_line(&self, level: &str, msg: &str) -> (w: LogWrite)
        ensures
            w.line@ == log_line_text(millis_text(w.instant), level@, msg@) + "\n"@,
            w.bytes == utf8_len(w.line@),
            w.rotate == should_rotate(self.size_view() as int, w.bytes as int),
            !millis_text(w.instant).contains('['),
            four_digit_year(w.instant) ==> rfc3339_instant(millis_text(w.instant)) == Some(to_millis(w.instant)),
            four_digit_year(w.instant) && !level@.contains(']') && !(msg@.len() > 0 && msg@.last() == ']')
                ==> parsed_line(w.line@.drop_last()) == Some((to_millis(w.instant), level@, msg@)),
            !level@.contains('\n') && !msg@.contains('\n') ==> !w.line@.drop_last().contains('\n'),
    {
        let t = now();
        let ts = format_millis(t);
        let line = compose_log_line(ts.as_str(), level, msg);
        proof {
            reveal_strlit("\n");
            assert(line@.drop_last() =~= log_line_text(millis_text(t), level@, msg@));
            if four_digit_year(t) && !level@.contains(']') && !(msg@.len() > 0 && msg@.last() == ']') {
                law_written_line_reads_back(t, level@, msg@);
            }
            lemma_one_line(millis_text(t), level@, msg@);
        }
        self.plan_line(line, t)
    }

    /// The write of an `info` line; see `record_rotation` and `record_written`.
    pub fn write_info(&self, msg: &str) -> (w: LogWrite)
        ensures
            w.line@ == log_line_text(millis_text(w.instant), "info"@, msg@) + "\n"@,
            w.bytes == utf8_len(w.line@),
            w.rotate == should_rotate(self.size_view() as int, w.bytes as int),
            !millis_text(w.instant).contains('['),
            four_digit_year(w.instant) ==> rfc3339_instant(millis_text(w.instant)) == Some(to_millis(w.instant)),
            four_digit_year(w.instant) && !(msg@.len() > 0 && msg@.last() == ']')
                ==> parsed_line(w.line@.drop_last()) == Some((to_millis(w.instant), "info"@, msg@)),
            !msg@.contains('\n') ==> !w.line@.drop_last().contains('\n'),
    {
        proof {
            reveal_strlit("info");
        }
        self.write_line("info", msg)
    }

    /// The write of an `error` line; see `record_rotation` and `record_written`.
    pub fn write_error(&self, msg: &str) -> (w: LogWrite)
        ensures
            w.line@ == log_line_text(millis_text(w.instant), "error"@, msg@) + "\n"@,
            w.bytes == utf8_len(w.line@),
            w.rotate == should_rotate(self.size_view() as int, w.bytes as int),
            !millis_text(w.instant).contains('['),
            four_digit_year(w.instant) ==> rfc3339_instant(millis_text(w.instant)) == Some(to_millis(w.instant)),
            four_digit_year(w.instant) && !(msg@.len() > 0 && msg@.last() == ']')
                ==> parsed_line(w.line@.drop_last()) == Some((to_millis(w.instant), "error"@, msg@)),
            !msg@.contains('\n') ==> !w.line@.drop_last().contains('\n'),
    {
        proof {
            reveal_strlit("error");
        }
        self.write_line("error", msg)
    }

    /// The write of the line for a log event, at the event's level.
    pub fn write_message(&self, msg: &LogMessage) -> (w: LogWrite)
        ensures
            w.line@ == log_line_text(millis_text(w.instant), level_text(msg.level), event_text(msg.event)) + "\n"@,
            w.bytes == utf8_len(w.line@),
            w.rotate == should_rotate(self.size_view() as int, w.bytes as int),
            !millis_text(w.instant).contains('['),
            four_digit_year(w.instant) ==> rfc3339_instant(millis_text(w.instant)) == Some(to_millis(w.instant)),
            four_digit_year(w.instant) && !(event_text(msg.event).len() > 0 && event_text(msg.event).last() == ']')
                ==> parsed_line(w.line@.drop_last()) == Some((to_millis(w.instant), level_text(msg.level), event_text(msg.event))),
            !event_text(msg.event).contains('\n') ==> !w.line@.drop_last().contains('\n'),
    {
        proof {
            reveal_strlit("info");
            reveal_strlit("error");
        }
        let level = msg.level.as_str();
        let text = format_event(&msg.event);
        self.write_line(level, text.as_str())
    }
}

/// The name of the current log file.
pub open spec fn current_name() -> Seq<char> {
    "current.log"@
}

/// What precedes the number in the name of a rotated segment.
pub open spec fn segment_prefix() -> Seq<char> {
    "current.log."@
}

/// The file name of segment `n`: the current file for 0, else `current.log.<n>`.
pub open spec fn segment_name(n: nat) -> Seq<char> {
    if n == 0 {
        current_name()
    } else {
        segment_prefix() + decimal(n)
    }
}

/// The file name of segment `n`: the current file for 0, else `current.log.<n>`.
pub fn segment_file_name(n: usize) -> (s: String)
    ensures
        s@ == segment_name(n as nat),
{
    if n == 0 {
        String::from_str("current.log")
    } else {
        let mut s = String::from_str("current.log.");
        let d = u64_to_decimal(n as u64);
        s.append(d.as_str());
        s
    }
}

/// The number after the prefix of a rotated segment's name, as `u32::from_str` reads it.
pub open spec fn segment_number(name: Seq<char>) -> nat {
    digits_value(unsigned_digits(name.skip(segment_prefix().len() as int)))
}

/// The names that `segment_order` accepts: any name but one with the segment
/// prefix whose rest is not a number from 0 to 5.
pub open spec fn segment_order_defined(name: Seq<char>) -> bool {
    name != current_name() && has_prefix(name, segment_prefix()) ==> {
        &&& parses_as_u32(name.skip(segment_prefix().len() as int))
        &&& segment_number(name) <= MAX_SEGMENTS
    }
}

/// The rank of a log file name, older files first: rotated segment `n` ranks
/// `5 - n`, the current file 6, any other name 7.
pub open spec fn segment_rank(name: Seq<char>) -> int {
    if name == current_name() {
        MAX_SEGMENTS + 1
    } else if has_prefix(name, segment_prefix()) {
        MAX_SEGMENTS - segment_number(name)
    } else {
        MAX_SEGMENTS + 2
    }
}

/// The rank of a log file name, older files first: rotated segment `n` ranks
/// `5 - n`, the current file 6, any other name 7.
pub fn segment_order(name: &str) -> (rank: u32)
    requires
        segment_order_defined(name@),
    ensures
        rank == segment_rank(name@),
{
    let v = chars_of(name);
    if chars_equal(&v, "current.log") {
        6
    } else if starts_with(&v, "current.log.") {
        let plen = "current.log.".unicode_len();
        let suffix = string_from_chars(&v, plen, v.len());
        assert(suffix@ == name@.skip(segment_prefix().len() as int));
        let num = match parse_u32(suffix.as_str()) {
            Some(n) => n,
            None => 7,
        };
        5 - num
    } else {
        7
    }
}

/// Every name of a log segment has a rank, and the rank puts older segments first:
/// segment `n` ranks `5 - n` and the current file ranks last.
pub proof fn law_segment_rank(n: nat)
    requires
        n <= MAX_SEGMENTS,
    ensures
        segment_order_defined(segment_name(n)),
        n == 0 ==> segment_rank(segment_name(n)) == MAX_SEGMENTS + 1,
        n > 0 ==> segment_rank(segment_name(n)) == MAX_SEGMENTS - n,
{
    reveal_strlit("current.log");
    reveal_strlit("current.log.");
    if n > 0 {
        let name = segment_name(n);
        let d = decimal(n);
        assert(d =~= seq![crate::text::digit_char(n)]);
        assert(name.len() == 13);
        assert(name != current_name());
        assert(name.take(12) =~= segment_prefix());
        assert(name.skip(12) =~= d);
        assert(unsigned_digits(d) =~= d);
        assert(d.drop_last() =~= Seq::<char>::empty());
        assert(digits_value(d.drop_last()) == 0);
        assert((crate::text::digit_char(n) as u32) == n + 48);
        assert(d.last() == crate::text::digit_char(n));
        assert(digits_value(d) == n);
    }
}

/// One step of a rotation: remove rotated segment `n`, or rename segment `n` to
/// `n + 1` (segment 0 being the current file). A step on a file that does not exist
/// does nothing.
#[derive(Debug, Clone, Copy, PartialEq, Eq, Structural)]
pub enum RotationStep {
    RemoveSegment(usize),
    ShiftSegment(usize),
}

/// The steps of a rotation, in order: the oldest segment goes, the others move one
/// place back, the current file becomes segment 1; a new current file is then opened.
pub open spec fn rotation_steps() -> Seq<RotationStep> {
    seq![
        RotationStep::RemoveSegment(5),
        RotationStep::ShiftSegment(4),
        RotationStep::ShiftSegment(3),
        RotationStep::ShiftSegment(2),
        RotationStep::ShiftSegment(1),
        RotationStep::ShiftSegment(0),
    ]
}

/// The steps of a rotation, in order.
pub fn rotation_plan() -> (steps: Vec<RotationStep>)
    ensures
        steps@ == rotation_steps(),
{
    let mut steps: Vec<RotationStep> = Vec::new();
    steps.push(RotationStep::RemoveSegment(MAX_SEGMENTS));
    let mut i: usize = MAX_SEGMENTS;
    while i > 0
        invariant
            i <= MAX_SEGMENTS,
            steps@ == rotation_steps().take(MAX_SEGMENTS - i + 1),
        decreases i,
    {
        i = i - 1;
        steps.push(RotationStep::ShiftSegment(i));
        assert(rotation_steps().take(MAX_SEGMENTS - i + 1) =~= rotation_steps().take(MAX_SEGMENTS - i).push(
            RotationStep::ShiftSegment(i),
        ));
    }
    assert(rotation_steps().take(6) =~= rotation_steps());
    steps
}

/// The log files of an entry as lines: segment number to the lines of that file,
/// for the files that exist.
pub type Segments = Map<nat, Seq<Seq<char>>>;

/// The segments after one step of a rotation.
pub open spec fn apply_step(d: Segments, step: RotationStep) -> Segments {
    match step {
        RotationStep::RemoveSegment(n) => d.remove(n as nat),
        RotationStep::ShiftSegment(n) => if d.contains_key(n as nat) {
            d.remove(n as nat).insert((n + 1) as nat, d[n as nat])
        } else {
            d
        },
    }
}

/// The segments after some steps of a rotation.
pub open spec fn apply_steps(d: Segments, steps: Seq<RotationStep>) -> Segments
    decreases steps.len(),
{
    if steps.len() == 0 {
        d
    } else {
        apply_steps(apply_step(d, steps[0]), steps.drop_first())
    }
}

/// The lines of segment `n`, none where the file does not exist.
pub open spec fn lines_of(d: Segments, n: nat) -> Seq<Seq<char>> {
    if d.contains_key(n) {
        d[n]
    } else {
        Seq::empty()
    }
}

/// The lines of segments `n` down to 0, oldest first: what reading the logs gives.
pub open spec fn read_from(d: Segments, n: nat) -> Seq<Seq<char>>
    decreases n,
{
    if n == 0 {
        lines_of(d, 0)
    } else {
        lines_of(d, n) + read_from(d, (n - 1) as nat)
    }
}

/// All lines of the log, oldest first.
pub open spec fn read_all(d: Segments) -> Seq<Seq<char>> {
    read_from(d, MAX_SEGMENTS as nat)
}

/// The segments after a line is appended to the current file.
pub open spec fn append_line(d: Segments, line: Seq<char>) -> Segments {
    d.insert(0, lines_of(d, 0).push(line))
}

/// The segments after a write: a rotation first when the write asks for it, then the
/// line appended to the current file.
pub open spec fn after_write(d: Segments, rotate: bool, line: Seq<char>) -> Segments {
    if rotate {
        append_line(apply_steps(d, rotation_steps()), line)
    } else {
        append_line(d, line)
    }
}

/// The log files hold only segments 0 to 5.
pub open spec fn segments_bounded(d: Segments) -> bool {
    forall|n: nat| #[trigger] d.contains_key(n) ==> n <= MAX_SEGMENTS
}

proof fn lemma_read_from_append(d: Segments, line: Seq<char>, n: nat)
    ensures
        read_from(append_line(d, line), n) == read_from(d, n).push(line),
    decreases n,
{
    if n > 0 {
        lemma_read_from_append(d, line, (n - 1) as nat);
        let a = append_line(d, line);
        assert(lines_of(a, n) == lines_of(d, n));
        assert(read_from(a, n) == lines_of(d, n) + read_from(d, (n - 1) as nat).push(line));
        assert(lines_of(d, n) + read_from(d, (n - 1) as nat).push(line) =~= (lines_of(d, n) + read_from(d, (n - 1) as nat)).push(line));
    }
}

/// The segments after a rotation: segment `k + 1` holds what segment `k` held, for
/// `k` from 0 to 4, and there is no current file until one is opened.
pub open spec fn shifted(d: Segments) -> Segments {
    Map::new(
        |k: nat| 1 <= k <= MAX_SEGMENTS && d.contains_key((k - 1) as nat),
        |k: nat| d[(k - 1) as nat],
    )
}

proof fn lemma_rotation_shifts(d: Segments)
    requires
        segments_bounded(d),
    ensures
        apply_steps(d, rotation_steps()) == shifted(d),
{
    let s = rotation_steps();
    reveal_with_fuel(apply_steps, 7);
    assert(s.drop_first() =~= seq![RotationStep::ShiftSegment(4), RotationStep::ShiftSegment(3), RotationStep::ShiftSegment(2), RotationStep::ShiftSegment(1), RotationStep::ShiftSegment(0)]);
    let d1 = apply_step(d, RotationStep::RemoveSegment(5));
    let d2 = apply_step(d1, RotationStep::ShiftSegment(4));
    let d3 = apply_step(d2, RotationStep::ShiftSegment(3));
    let d4 = apply_step(d3, RotationStep::ShiftSegment(2));
    let d5 = apply_step(d4, RotationStep::ShiftSegment(1));
    let d6 = apply_step(d5, RotationStep::ShiftSegment(0));
    assert(s.drop_first().drop_first() =~= seq![RotationStep::ShiftSegment(3), RotationStep::ShiftSegment(2), RotationStep::ShiftSegment(1), RotationStep::ShiftSegment(0)]);
    assert(s.drop_first().drop_first().drop_first() =~= seq![RotationStep::ShiftSegment(2), RotationStep::ShiftSegment(1), RotationStep::ShiftSegment(0)]);
    assert(s.drop_first().drop_first().drop_first().drop_first() =~= seq![RotationStep::ShiftSegment(1), RotationStep::ShiftSegment(0)]);
    assert(s.drop_first().drop_first().drop_first().drop_first().drop_first() =~= seq![RotationStep::ShiftSegment(0)]);
    assert(s.drop_first().drop_first().drop_first().drop_first().drop_first().drop_first() =~= Seq::<RotationStep>::empty());
    assert(apply_steps(d, s) == d6);
    assert(d6 =~= shifted(d));
}

/// What a read gives back after a write: the lines read before it, without those of
/// the oldest segment when the write rotated the files, followed by the written line.
pub proof fn law_read_after_write(d: Segments, rotate: bool, line: Seq<char>)
    requires
        segments_bounded(d),
    ensures
        segments_bounded(after_write(d, rotate, line)),
        !rotate ==> read_all(after_write(d, rotate, line)) == read_all(d).push(line),
        rotate ==> read_all(after_write(d, rotate, line)) == read_from(d, (MAX_SEGMENTS - 1) as nat).push(line),
{
    if rotate {
        lemma_rotation_shifts(d);
        let sh = shifted(d);
        lemma_read_from_append(sh, line, MAX_SEGMENTS as nat);
        assert(lines_of(sh, 0) == Seq::<Seq<char>>::empty());
        reveal_with_fuel(read_from, 7);
        assert(read_from(sh, 5) =~= lines_of(d, 4) + lines_of(d, 3) + lines_of(d, 2) + lines_of(d, 1) + lines_of(d, 0));
        assert(read_from(d, 4) =~= lines_of(d, 4) + lines_of(d, 3) + lines_of(d, 2) + lines_of(d, 1) + lines_of(d, 0));
        assert forall|n: nat| #[trigger] after_write(d, rotate, line).contains_key(n) implies n <= MAX_SEGMENTS by {}
    } else {
        lemma_read_from_append(d, line, MAX_SEGMENTS as nat);
    }
}


/// The three parts of a log line, as `parse_log_line` cuts it: the text before the
/// first ` [`, then, after it and with one trailing `]` dropped, the text before the
/// first `] ` (the level) and the text after it (the message).
pub open spec fn split_line(l: Seq<char>) -> Option<(Seq<char>, Seq<char>, Seq<char>)> {
    match first_occurrence(l, " ["@) {
        None => None,
        Some(i) => {
            let rest = l.skip(i + " ["@.len());
            let rest2 = if rest.len() > 0 && rest.last() == ']' {
                rest.drop_last()
            } else {
                rest
            };
            match first_occurrence(rest2, "] "@) {
                None => None,
                Some(j) => Some((l.take(i), rest2.take(j), rest2.skip(j + "] "@.len()))),
            }
        },
    }
}

/// Cuts a log line into its timestamp text, level and message.
pub fn split_log_line(line: &str) -> (r: Option<(String, String, String)>)
    ensures
        match split_line(line@) {
            None => r is None,
            Some(p) => r matches Some(q) && q.0@ == p.0 && q.1@ == p.1 && q.2@ == p.2,
        },
{
    let v = chars_of(line);
    let open = chars_of(" [");
    match find_first(&v, &open) {
        None => None,
        Some(i) => {
            proof {
                crate::text::lemma_first_occurrence_in_bounds(v@, open@);
            }
            let ts = string_from_chars(&v, 0, i);
            let start = i + open.len();
            let mut end = v.len();
            if end > start && v[end - 1] == ']' {
                end = end - 1;
            }
            let rest = string_from_chars(&v, start, end);
            let rv = chars_of(rest.as_str());
            let close = chars_of("] ");
            assert(rv@ =~= {
                let r0 = line@.skip(i + " ["@.len());
                if r0.len() > 0 && r0.last() == ']' { r0.drop_last() } else { r0 }
            });
            match find_first(&rv, &close) {
                None => None,
                Some(j) => {
                    proof {
                        crate::text::lemma_first_occurrence_in_bounds(rv@, close@);
                    }
                    let level = string_from_chars(&rv, 0, j);
                    let message = string_from_chars(&rv, j + close.len(), rv.len());
                    assert(ts@ =~= line@.take(i as int));
                    assert(level@ =~= rv@.take(j as int));
                    assert(message@ =~= rv@.skip(j + "] "@.len()));
                    Some((ts, level, message))
                },
            }
        },
    }
}

/// The parts of a parsed log line: its instant, level and message.
pub open spec fn parsed_line(l: Seq<char>) -> Option<(Timestamp, Seq<char>, Seq<char>)> {
    match split_line(l) {
        None => None,
        Some(p) => match rfc3339_instant(p.0) {
            None => None,
            Some(t) => Some((t, p.1, p.2)),
        },
    }
}

/// The parts of a log line as a triple.
pub open spec fn line_view(l: LogLine) -> (Timestamp, Seq<char>, Seq<char>) {
    (l.timestamp, l.level@, l.message@)
}

/// Parses a log line of the form `<RFC 3339 timestamp> [<level>] <message>`;
/// `None` when it does not have that form.
pub fn parse_log_line(line: &str) -> (r: Option<LogLine>)
    ensures
        match parsed_line(line@) {
            None => r is None,
            Some(p) => r matches Some(x) && line_view(x) == p,
        },
{
    match split_log_line(line) {
        None => None,
        Some((ts, level, message)) => match parse_rfc3339(ts.as_str()) {
            None => None,
            Some(timestamp) => Some(LogLine { timestamp, level, message }),
        },
    }
}

/// A written line is read back as written: the timestamp text, level and message
/// come out of a log line unchanged, when the timestamp holds no `[`, the level no
/// `]`, and the message does not end with `]`.
pub proof fn law_split_composed_line(ts: Seq<char>, level: Seq<char>, msg: Seq<char>)
    requires
        !ts.contains('['),
        !level.contains(']'),
        !(msg.len() > 0 && msg.last() == ']'),
    ensures
        split_line(log_line_text(ts, level, msg)) == Some((ts, level, msg)),
{
    reveal_strlit(" [");
    reveal_strlit("] ");
    let l = log_line_text(ts, level, msg);
    let n = ts.len() as int;
    assert(l =~= ts + (seq![' ', '['] + (level + (seq![']', ' '] + msg))));
    assert(occurs_at_fact(l, " ["@, n)) by {
        assert(l.subrange(n, n + 2) =~= " ["@);
    }
    assert forall|k: int| 0 <= k < n implies !crate::text::occurs_at(l, " ["@, k) by {
        if crate::text::occurs_at(l, " ["@, k) {
            assert(l.subrange(k, k + 2)[1] == '[');
            assert(l[k + 1] == '[');
            if k + 1 < n {
                assert(l[k + 1] == ts[k + 1]);
                assert(ts.contains('['));
            } else {
                assert(l[k + 1] == ' ');
            }
        }
    }
    crate::text::lemma_first_occurrence_is(l, " ["@, n);
    let rest = l.skip(n + 2);
    assert(rest =~= level + (seq![']', ' '] + msg));
    let m = level.len() as int;
    let rest2 = if rest.len() > 0 && rest.last() == ']' { rest.drop_last() } else { rest };
    assert(rest2 =~= rest) by {
        if msg.len() > 0 {
            assert(rest.last() == msg.last());
        } else {
            assert(rest.last() == ' ');
        }
    }
    assert(occurs_at_fact(rest2, "] "@, m)) by {
        assert(rest2.subrange(m, m + 2) =~= "] "@);
    }
    assert forall|k: int| 0 <= k < m implies !crate::text::occurs_at(rest2, "] "@, k) by {
        if crate::text::occurs_at(rest2, "] "@, k) {
            assert(rest2.subrange(k, k + 2)[0] == ']');
            assert(rest2[k] == level[k]);
            assert(level.contains(']'));
        }
    }
    crate::text::lemma_first_occurrence_is(rest2, "] "@, m);
    assert(l.take(n) =~= ts);
    assert(rest2.take(m) =~= level);
    assert(rest2.skip(m + 2) =~= msg);
}

/// A line the logger writes is read back as written: its timestamp text is read as
/// the instant it was stamped with, cut to whole milliseconds, and the level and
/// message come back unchanged, when the level holds no `]` and the message does not
/// end with `]`. The line holds no line break but its last character when neither
/// the level nor the message holds one, so the file gives it back as one line.
pub proof fn law_written_line_reads_back(ts: Timestamp, level: Seq<char>, msg: Seq<char>)
    requires
        !millis_text(ts).contains('['),
        !millis_text(ts).contains('\n'),
        rfc3339_instant(millis_text(ts)) == Some(to_millis(ts)),
        !level.contains(']'),
        !(msg.len() > 0 && msg.last() == ']'),
    ensures
        parsed_line(log_line_text(millis_text(ts), level, msg)) == Some((to_millis(ts), level, msg)),
        !level.contains('\n') && !msg.contains('\n') ==> !log_line_text(millis_text(ts), level, msg).contains('\n'),
{
    law_split_composed_line(millis_text(ts), level, msg);
    lemma_one_line(millis_text(ts), level, msg);
}

proof fn lemma_one_line(t: Seq<char>, level: Seq<char>, msg: Seq<char>)
    ensures
        !t.contains('\n') && !level.contains('\n') && !msg.contains('\n') ==> !log_line_text(t, level, msg).contains('\n'),
{
    let l = log_line_text(t, level, msg);
    if !t.contains('\n') && !level.contains('\n') && !msg.contains('\n') {
        reveal_strlit(" [");
        reveal_strlit("] ");
        assert(l =~= t + (seq![' ', '['] + (level + (seq![']', ' '] + msg))));
        assert forall|k: int| 0 <= k < l.len() implies l[k] != '\n' by {
            let n = t.len() as int;
            let m = level.len() as int;
            if k < n {
                assert(l[k] == t[k]);
            } else if k < n + 2 {
            } else if k < n + 2 + m {
                assert(l[k] == level[k - n - 2]);
            } else if k < n + 4 + m {
            } else {
                assert(l[k] == msg[k - n - 4 - m]);
            }
        }
    }
}

/// The lines of the files, file after file.
pub open spec fn file_lines(files: Seq<SegmentRead>) -> Seq<String>
    decreases files.len(),
{
    if files.len() == 0 {
        Seq::empty()
    } else {
        file_lines(files.drop_last()) + files.last().lines@
    }
}

proof fn lemma_parsed_lines_concat(a: Seq<String>, b: Seq<String>)
    ensures
        parsed_lines(a + b) == parsed_lines(a) + parsed_lines(b),
    decreases b.len(),
{
    if b.len() == 0 {
        assert(a + b =~= a);
    } else {
        lemma_parsed_lines_concat(a, b.drop_last());
        assert((a + b).drop_last() =~= a + b.drop_last());
        assert((a + b).last() == b.last());
    }
}

/// Reading the files one after another parses the same lines as reading all their
/// lines in one sequence.
pub proof fn law_parsed_files_are_parsed_lines(files: Seq<SegmentRead>)
    ensures
        parsed_files(files) == parsed_lines(file_lines(files)),
    decreases files.len(),
{
    if files.len() > 0 {
        law_parsed_files_are_parsed_lines(files.drop_last());
        lemma_parsed_lines_concat(file_lines(files.drop_last()), files.last().lines@);
    }
}

/// The instant, level and message of written lines as a read gives them back.
pub open spec fn read_back(written: Seq<(Timestamp, Seq<char>, Seq<char>)>) -> Seq<(Timestamp, Seq<char>, Seq<char>)> {
    written.map_values(|w: (Timestamp, Seq<char>, Seq<char>)| (to_millis(w.0), w.1, w.2))
}

/// Line `i` of `lines` is the line the logger writes for entry `i` of `written`, whose
/// level holds no `]` and whose message does not end with `]`, stamped with a time
/// that the timestamp text gives back.
pub open spec fn lines_written(lines: Seq<String>, written: Seq<(Timestamp, Seq<char>, Seq<char>)>) -> bool {
    &&& lines.len() == written.len()
    &&& forall|i: int| 0 <= i < lines.len() ==> {
        let w = #[trigger] written[i];
        &&& lines[i]@ == log_line_text(millis_text(w.0), w.1, w.2)
        &&& !millis_text(w.0).contains('[')
        &&& !millis_text(w.0).contains('\n')
        &&& rfc3339_instant(millis_text(w.0)) == Some(to_millis(w.0))
        &&& !w.1.contains(']')
        &&& !(w.2.len() > 0 && w.2.last() == ']')
    }
}

/// Reading lines that the logger wrote gives back each line's instant (to the
/// millisecond), level and message, in the order written.
pub proof fn law_written_lines_read_back(lines: Seq<String>, written: Seq<(Timestamp, Seq<char>, Seq<char>)>)
    requires
        lines_written(lines, written),
    ensures
        parsed_lines(lines) == read_back(written),
    decreases lines.len(),
{
    if lines.len() > 0 {
        let k = lines.len() - 1;
        assert(lines_written(lines.drop_last(), written.drop_last())) by {
            assert forall|i: int| 0 <= i < lines.drop_last().len() implies {
                let w = #[trigger] written.drop_last()[i];
                &&& lines.drop_last()[i]@ == log_line_text(millis_text(w.0), w.1, w.2)
                &&& !millis_text(w.0).contains('[')
                &&& !millis_text(w.0).contains('\n')
                &&& rfc3339_instant(millis_text(w.0)) == Some(to_millis(w.0))
                &&& !w.1.contains(']')
                &&& !(w.2.len() > 0 && w.2.last() == ']')
            } by {
                assert(written.drop_last()[i] == written[i]);
                assert(lines.drop_last()[i] == lines[i]);
            }
        }
        law_written_lines_read_back(lines.drop_last(), written.drop_last());
        let w = written[k];
        law_written_line_reads_back(w.0, w.1, w.2);
        assert(read_back(written) =~= read_back(written.drop_last()).push((to_millis(w.0), w.1, w.2)));
    } else {
        assert(read_back(written) =~= Seq::<(Timestamp, Seq<char>, Seq<char>)>::empty());
    }
}

/// What a page of the log gives back of the lines the logger wrote: when the files,
/// read one after another, hold the written lines in the order written, the page
/// that `read_logs` returns is that page of the written instants (to the
/// millisecond), levels and messages.
pub proof fn law_read_logs_gives_back_writes(
    files: Seq<SegmentRead>,
    written: Seq<(Timestamp, Seq<char>, Seq<char>)>,
    offset: int,
    limit: int,
)
    requires
        lines_written(file_lines(files), written),
    ensures
        page(parsed_files(files), offset, limit) == page(read_back(written), offset, limit),
{
    law_parsed_files_are_parsed_lines(files);
    law_written_lines_read_back(file_lines(files), written);
}

/// `pat` occurs in `s` at position `i`.
pub open spec fn occurs_at_fact(s: Seq<char>, pat: Seq<char>, i: int) -> bool {
    crate::text::occurs_at(s, pat, i)
}


/// The names of rank `k`, in their order.
pub open spec fn with_rank(names: Seq<Seq<char>>, k: int) -> Seq<Seq<char>>
    decreases names.len(),
{
    if names.len() == 0 {
        Seq::empty()
    } else if segment_rank(names.last()) == k {
        with_rank(names.drop_last(), k).push(names.last())
    } else {
        with_rank(names.drop_last(), k)
    }
}

/// The names of rank below `k`, lower ranks first and in their order within a rank.
pub open spec fn ranked_below(names: Seq<Seq<char>>, k: nat) -> Seq<Seq<char>>
    decreases k,
{
    if k == 0 {
        Seq::empty()
    } else {
        ranked_below(names, (k - 1) as nat) + with_rank(names, k - 1)
    }
}

/// The names ordered by rank, older segments first; names of equal rank keep their order.
pub open spec fn sorted_by_rank(names: Seq<Seq<char>>) -> Seq<Seq<char>> {
    ranked_below(names, (MAX_SEGMENTS + 3) as nat)
}

/// Sorts log file names by `segment_order`, older segments first; the sort is stable.
pub fn sort_by_segment_order(names: &Vec<String>) -> (r: Vec<String>)
    requires
        forall|i: int| 0 <= i < names.len() ==> segment_order_defined(#[trigger] names@[i]@),
    ensures
        views(r@) == sorted_by_rank(views(names@)),
{
    let ghost ns = views(names@);
    let mut r: Vec<String> = Vec::new();
    let mut k: u32 = 0;
    while k < 8
        invariant
            k <= 8,
            ns == views(names@),
            forall|i: int| 0 <= i < names.len() ==> segment_order_defined(#[trigger] names@[i]@),
            views(r@) == ranked_below(ns, k as nat),
        decreases 8 - k,
    {
        let mut i: usize = 0;
        while i < names.len()
            invariant
                k < 8,
                i <= names.len(),
                ns == views(names@),
                forall|i: int| 0 <= i < names.len() ==> segment_order_defined(#[trigger] names@[i]@),
                views(r@) == ranked_below(ns, k as nat) + with_rank(ns.take(i as int), k as int),
            decreases names.len() - i,
        {
            let rank = segment_order(names[i].as_str());
            let ghost before = r@;
            assert(ns.take(i + 1).drop_last() =~= ns.take(i as int));
            assert(ns.take(i + 1).last() == names@[i as int]@);
            if rank == k {
                r.push(names[i].clone());
                assert(views(r@) =~= views(before).push(names@[i as int]@));
            }
            i = i + 1;
        }
        assert(ns.take(names.len() as int) =~= ns);
        k = k + 1;
    }
    r
}

proof fn lemma_with_rank_all(names: Seq<Seq<char>>, k: int)
    ensures
        forall|i: int| 0 <= i < with_rank(names, k).len() ==> segment_rank(#[trigger] with_rank(names, k)[i]) == k,
    decreases names.len(),
{
    if names.len() > 0 {
        lemma_with_rank_all(names.drop_last(), k);
        let w = with_rank(names.drop_last(), k);
        if segment_rank(names.last()) == k {
            assert forall|i: int| 0 <= i < w.push(names.last()).len() implies segment_rank(
                #[trigger] w.push(names.last())[i],
            ) == k by {
                if i < w.len() {
                    assert(w.push(names.last())[i] == w[i]);
                }
            }
        }
    }
}

proof fn lemma_ranked_below_bound(names: Seq<Seq<char>>, k: nat)
    ensures
        forall|i: int| 0 <= i < ranked_below(names, k).len() ==> segment_rank(#[trigger] ranked_below(names, k)[i]) < k,
    decreases k,
{
    if k > 0 {
        lemma_ranked_below_bound(names, (k - 1) as nat);
        lemma_with_rank_all(names, k - 1);
        let a = ranked_below(names, (k - 1) as nat);
        let b = with_rank(names, k - 1);
        assert forall|i: int| 0 <= i < (a + b).len() implies segment_rank(#[trigger] (a + b)[i]) < k by {
            if i < a.len() {
                assert((a + b)[i] == a[i]);
            } else {
                assert((a + b)[i] == b[i - a.len()]);
            }
        }
    }
}

proof fn lemma_ranked_below_sorted(names: Seq<Seq<char>>, k: nat)
    ensures
        forall|i: int, j: int| 0 <= i < j < ranked_below(names, k).len() ==> segment_rank(
            #[trigger] ranked_below(names, k)[i],
        ) <= segment_rank(#[trigger] ranked_below(names, k)[j]),
    decreases k,
{
    if k > 0 {
        lemma_ranked_below_sorted(names, (k - 1) as nat);
        lemma_ranked_below_bound(names, (k - 1) as nat);
        lemma_with_rank_all(names, k - 1);
        let a = ranked_below(names, (k - 1) as nat);
        let b = with_rank(names, k - 1);
        assert forall|i: int, j: int| 0 <= i < j < (a + b).len() implies segment_rank(#[trigger] (a + b)[i])
            <= segment_rank(#[trigger] (a + b)[j]) by {
            if j < a.len() {
                assert((a + b)[i] == a[i] && (a + b)[j] == a[j]);
            } else if i < a.len() {
                assert((a + b)[i] == a[i] && (a + b)[j] == b[j - a.len()]);
            } else {
                assert((a + b)[i] == b[i - a.len()] && (a + b)[j] == b[j - a.len()]);
            }
        }
    }
}

/// Sorting by `segment_order` puts older files first: the ranks of the sorted names
/// never decrease.
pub proof fn law_sorted_oldest_first(names: Seq<Seq<char>>)
    ensures
        forall|i: int, j: int| 0 <= i < j < sorted_by_rank(names).len() ==> segment_rank(
            #[trigger] sorted_by_rank(names)[i],
        ) <= segment_rank(#[trigger] sorted_by_rank(names)[j]),
{
    lemma_ranked_below_sorted(names, (MAX_SEGMENTS + 3) as nat);
}

/// How often `x` occurs in `s`.
pub open spec fn count_of(s: Seq<Seq<char>>, x: Seq<char>) -> nat
    decreases s.len(),
{
    if s.len() == 0 {
        0
    } else {
        count_of(s.drop_last(), x) + if s.last() == x { 1nat } else { 0nat }
    }
}

proof fn lemma_count_concat(a: Seq<Seq<char>>, b: Seq<Seq<char>>, x: Seq<char>)
    ensures
        count_of(a + b, x) == count_of(a, x) + count_of(b, x),
    decreases b.len(),
{
    if b.len() > 0 {
        assert((a + b).drop_last() =~= a + b.drop_last());
        lemma_count_concat(a, b.drop_last(), x);
    } else {
        assert(a + b =~= a);
    }
}

proof fn lemma_count_with_rank(s: Seq<Seq<char>>, k: int, x: Seq<char>)
    ensures
        count_of(with_rank(s, k), x) == if segment_rank(x) == k { count_of(s, x) } else { 0 },
    decreases s.len(),
{
    if s.len() > 0 {
        lemma_count_with_rank(s.drop_last(), k, x);
        let w = with_rank(s.drop_last(), k);
        if segment_rank(s.last()) == k {
            assert(w.push(s.last()).drop_last() =~= w);
        }
    }
}

proof fn lemma_count_ranked_below(s: Seq<Seq<char>>, k: nat, x: Seq<char>)
    ensures
        count_of(ranked_below(s, k), x) == if 0 <= segment_rank(x) < k { count_of(s, x) } else { 0 },
    decreases k,
{
    if k > 0 {
        lemma_count_ranked_below(s, (k - 1) as nat, x);
        lemma_count_with_rank(s, k - 1, x);
        lemma_count_concat(ranked_below(s, (k - 1) as nat), with_rank(s, k - 1), x);
    }
}

proof fn lemma_count_zero_outside(s: Seq<Seq<char>>, x: Seq<char>)
    requires
        forall|i: int| 0 <= i < s.len() ==> segment_order_defined(#[trigger] s[i]),
        !segment_order_defined(x) || segment_rank(x) < 0 || segment_rank(x) >= MAX_SEGMENTS + 3,
    ensures
        count_of(s, x) == 0,
    decreases s.len(),
{
    if s.len() > 0 {
        assert(segment_order_defined(s[s.len() - 1]));
        lemma_count_zero_outside(s.drop_last(), x);
    }
}

/// Sorting by `segment_order` keeps the names: every name occurs in the sorted list
/// as often as in the given one.
pub proof fn law_sort_keeps_names(s: Seq<Seq<char>>, x: Seq<char>)
    requires
        forall|i: int| 0 <= i < s.len() ==> segment_order_defined(#[trigger] s[i]),
    ensures
        count_of(sorted_by_rank(s), x) == count_of(s, x),
{
    lemma_count_ranked_below(s, (MAX_SEGMENTS + 3) as nat, x);
    if !(segment_order_defined(x) && 0 <= segment_rank(x) < MAX_SEGMENTS + 3) {
        lemma_count_zero_outside(s, x);
    }
}

/// What was read of one log file: its size, when its metadata could be read, and its
/// lines, none when it could not be opened.
pub struct SegmentRead {
    pub size: Option<u64>,
    pub lines: Vec<String>,
}

/// The parsed lines of a file, in order; lines that do not parse are left out.
pub open spec fn parsed_lines(lines: Seq<String>) -> Seq<(Timestamp, Seq<char>, Seq<char>)>
    decreases lines.len(),
{
    if lines.len() == 0 {
        Seq::empty()
    } else {
        match parsed_line(lines.last()@) {
            Some(p) => parsed_lines(lines.drop_last()).push(p),
            None => parsed_lines(lines.drop_last()),
        }
    }
}

/// The parsed lines of the files, file after file.
pub open spec fn parsed_files(files: Seq<SegmentRead>) -> Seq<(Timestamp, Seq<char>, Seq<char>)>
    decreases files.len(),
{
    if files.len() == 0 {
        Seq::empty()
    } else {
        parsed_files(files.drop_last()) + parsed_lines(files.last().lines@)
    }
}

/// The sizes of the files whose size is known, added up.
pub open spec fn sizes_sum(files: Seq<SegmentRead>) -> nat
    decreases files.len(),
{
    if files.len() == 0 {
        0
    } else {
        sizes_sum(files.drop_last()) + match files.last().size {
            Some(n) => n as nat,
            None => 0,
        }
    }
}

proof fn lemma_sizes_sum_concat(a: Seq<SegmentRead>, b: Seq<SegmentRead>)
    ensures
        sizes_sum(a + b) == sizes_sum(a) + sizes_sum(b),
    decreases b.len(),
{
    if b.len() == 0 {
        assert(a + b =~= a);
    } else {
        lemma_sizes_sum_concat(a, b.drop_last());
        assert((a + b).drop_last() =~= a + b.drop_last());
    }
}

proof fn lemma_parsed_files_concat(a: Seq<SegmentRead>, b: Seq<SegmentRead>)
    ensures
        parsed_files(a + b) == parsed_files(a) + parsed_files(b),
    decreases b.len(),
{
    if b.len() == 0 {
        assert(a + b =~= a);
        assert(parsed_files(a) + parsed_files(b) =~= parsed_files(a));
    } else {
        lemma_parsed_files_concat(a, b.drop_last());
        assert((a + b).drop_last() =~= a + b.drop_last());
        assert(parsed_files(a) + (parsed_files(b.drop_last()) + parsed_lines(b.last().lines@))
            =~= (parsed_files(a) + parsed_files(b.drop_last())) + parsed_lines(b.last().lines@));
    }
}

/// Reading lines one after another: the parsed lines of two runs of lines are those
/// of the first run followed by those of the second, and a single line gives its
/// parts when it parses and nothing when it does not.
pub proof fn law_lines_parse_one_by_one(a: Seq<String>, b: Seq<String>, l: String)
    ensures
        parsed_lines(a + b) == parsed_lines(a) + parsed_lines(b),
        parsed_lines(seq![l]) == match parsed_line(l@) {
            Some(p) => seq![p],
            None => Seq::<(Timestamp, Seq<char>, Seq<char>)>::empty(),
        },
{
    lemma_parsed_lines_concat(a, b);
    assert(seq![l].drop_last() =~= Seq::<String>::empty());
    assert(parsed_lines(Seq::<String>::empty()) =~= Seq::<(Timestamp, Seq<char>, Seq<char>)>::empty());
    if let Some(p) = parsed_line(l@) {
        assert(Seq::<(Timestamp, Seq<char>, Seq<char>)>::empty().push(p) =~= seq![p]);
    }
}

/// Reading files one after another: the lines and sizes of two runs of files are
/// those of the first run followed by, and added to, those of the second; one file
/// gives its own parsed lines and its size when it is known, else nothing.
pub proof fn law_files_read_in_order(a: Seq<SegmentRead>, b: Seq<SegmentRead>, f: SegmentRead)
    ensures
        parsed_files(a + b) == parsed_files(a) + parsed_files(b),
        sizes_sum(a + b) == sizes_sum(a) + sizes_sum(b),
        parsed_files(seq![f]) == parsed_lines(f.lines@),
        sizes_sum(seq![f]) == match f.size {
            Some(n) => n as nat,
            None => 0nat,
        },
{
    lemma_parsed_files_concat(a, b);
    lemma_sizes_sum_concat(a, b);
    assert(seq![f].drop_last() =~= Seq::<SegmentRead>::empty());
    assert(seq![f].last() == f);
    assert(parsed_files(Seq::<SegmentRead>::empty()) == Seq::<(Timestamp, Seq<char>, Seq<char>)>::empty());
    assert(sizes_sum(Seq::<SegmentRead>::empty()) == 0);
    assert(Seq::<(Timestamp, Seq<char>, Seq<char>)>::empty() + parsed_lines(f.lines@) =~= parsed_lines(f.lines@));
}

/// The part of `s` that skipping `offset` items and taking `limit` leaves.
pub open spec fn page<T>(s: Seq<T>, offset: int, limit: int) -> Seq<T> {
    let start = if offset < s.len() { offset } else { s.len() as int };
    let end = if start + limit < s.len() { start + limit } else { s.len() as int };
    s.subrange(start, end)
}

/// A page skips `offset` items and takes at most `limit`: it holds
/// `min(limit, len - offset)` items (none when `offset` is past the end), and its
/// item `k` is item `offset + k` of the whole.
pub proof fn law_page_skips_then_takes<T>(s: Seq<T>, offset: int, limit: int)
    requires
        0 <= offset,
        0 <= limit,
    ensures
        page(s, offset, limit).len() == if offset >= s.len() {
            0
        } else if limit <= s.len() - offset {
            limit
        } else {
            s.len() - offset
        },
        forall|k: int| 0 <= k < page(s, offset, limit).len() ==> #[trigger] page(s, offset, limit)[k] == s[offset + k],
{
}

/// Numbers added up.
pub open spec fn seq_sum(s: Seq<u64>) -> nat
    decreases s.len(),
{
    if s.len() == 0 {
        0
    } else {
        seq_sum(s.drop_last()) + s.last() as nat
    }
}

impl EntryLogger {
    /// A page of the log: the lines of the given files, in the order given (older files
    /// first, see `sort_by_segment_order`), the lines that do not parse left out,
    /// `offset` lines skipped and at most `limit` taken; with the total size of the
    /// files and the size limit of an entry's logs.
    pub fn read_logs(&self, files: &Vec<SegmentRead>, offset: usize, limit: usize) -> (r: LogResponse)
        requires
            sizes_sum(files@) <= u64::MAX,
        ensures
            r.entry_id == self.entry_view(),
            r.total_bytes == sizes_sum(files@),
            r.max_bytes == MAX_TOTAL_BYTES,
            r.lines@.map_values(|l: LogLine| line_view(l)) == page(parsed_files(files@), offset as int, limit as int),
    {
        let mut all: Vec<LogLine> = Vec::new();
        let mut total: u64 = 0;
        let mut f: usize = 0;
        while f < files.len()
            invariant
                f <= files.len(),
                sizes_sum(files@) <= u64::MAX,
                total == sizes_sum(files@.take(f as int)),
                all@.map_values(|l: LogLine| line_view(l)) == parsed_files(files@.take(f as int)),
            decreases files.len() - f,
        {
            let file = &files[f];
            proof {
                assert(files@.take(f + 1).drop_last() =~= files@.take(f as int));
                lemma_sizes_sum_prefix(files@, f + 1);
            }
            match file.size {
                Some(n) => {
                    total = total + n;
                },
                None => {},
            }
            let mut i: usize = 0;
            let ghost start = all@.map_values(|l: LogLine| line_view(l));
            while i < file.lines.len()
                invariant
                    i <= file.lines.len(),
                    all@.map_values(|l: LogLine| line_view(l)) == start + parsed_lines(file.lines@.take(i as int)),
                decreases file.lines.len() - i,
            {
                assert(file.lines@.take(i + 1).drop_last() =~= file.lines@.take(i as int));
                let ghost before = all@;
                match parse_log_line(file.lines[i].as_str()) {
                    Some(l) => {
                        all.push(l);
                        assert(all@.map_values(|l: LogLine| line_view(l)) =~= before.map_values(|l: LogLine| line_view(l)).push(line_view(all@.last())));
                    },
                    None => {},
                }
                i = i + 1;
            }
            assert(file.lines@.take(file.lines.len() as int) =~= file.lines@);
            f = f + 1;
        }
        assert(files@.take(files.len() as int) =~= files@);
        let ghost all_views = all@.map_values(|l: LogLine| line_view(l));
        let start: usize = if offset < all.len() { offset } else { all.len() };
        let end: usize = if limit < all.len() - start { start + limit } else { all.len() };
        let mut lines: Vec<LogLine> = Vec::new();
        let mut i: usize = start;
        while i < end
            invariant
                start <= i <= end <= all.len(),
                all_views == all@.map_values(|l: LogLine| line_view(l)),
                lines@.map_values(|l: LogLine| line_view(l)) == all_views.subrange(start as int, i as int),
            decreases end - i,
        {
            let ghost before = lines@;
            lines.push(all[i].duplicate());
            assert(lines@.map_values(|l: LogLine| line_view(l)) =~= before.map_values(|l: LogLine| line_view(l)).push(line_view(all@[i as int])));
            assert(all_views.subrange(start as int, i + 1) =~= all_views.subrange(start as int, i as int).push(all_views[i as int]));
            i = i + 1;
        }
        LogResponse { entry_id: self.entry_id, lines, total_bytes: total, max_bytes: MAX_TOTAL_BYTES }
    }

    /// The size of all log files together, given the sizes of those that exist.
    pub fn total_size(&self, sizes: &Vec<u64>) -> (n: u64)
        requires
            seq_sum(sizes@) <= u64::MAX,
        ensures
            n == seq_sum(sizes@),
    {
        let mut n: u64 = 0;
        let mut i: usize = 0;
        while i < sizes.len()
            invariant
                i <= sizes.len(),
                seq_sum(sizes@) <= u64::MAX,
                n == seq_sum(sizes@.take(i as int)),
            decreases sizes.len() - i,
        {
            assert(sizes@.take(i + 1).drop_last() =~= sizes@.take(i as int));
            proof {
                lemma_seq_sum_prefix(sizes@, i + 1);
            }
            n = n + sizes[i];
            i = i + 1;
        }
        assert(sizes@.take(sizes.len() as int) =~= sizes@);
        n
    }
}

proof fn lemma_seq_sum_bound(s: Seq<u64>)
    requires
        forall|i: int| 0 <= i < s.len() ==> s[i] <= MAX_SEGMENT_BYTES,
    ensures
        seq_sum(s) <= s.len() * MAX_SEGMENT_BYTES,
    decreases s.len(),
{
    if s.len() > 0 {
        lemma_seq_sum_bound(s.drop_last());
        assert(s.last() == s[s.len() - 1]);
    }
}

/// The logs of an entry stay within their limit: at most six files (five rotated
/// segments and the current file) of at most 1 MB each hold at most 6 MB together.
pub proof fn law_total_size_bounded(sizes: Seq<u64>)
    requires
        sizes.len() <= MAX_SEGMENTS + 1,
        forall|i: int| 0 <= i < sizes.len() ==> sizes[i] <= MAX_SEGMENT_BYTES,
    ensures
        seq_sum(sizes) <= MAX_TOTAL_BYTES,
{
    lemma_seq_sum_bound(sizes);
    assert(sizes.len() * MAX_SEGMENT_BYTES <= 6 * MAX_SEGMENT_BYTES) by (nonlinear_arith)
        requires
            sizes.len() <= 6;
}

proof fn lemma_sizes_sum_bound(files: Seq<SegmentRead>)
    requires
        forall|i: int| 0 <= i < files.len() ==> match #[trigger] files[i].size {
            Some(n) => n <= MAX_SEGMENT_BYTES,
            None => true,
        },
    ensures
        sizes_sum(files) <= files.len() * MAX_SEGMENT_BYTES,
    decreases files.len(),
{
    if files.len() > 0 {
        assert forall|i: int| 0 <= i < files.drop_last().len() implies match #[trigger] files.drop_last()[i].size {
            Some(n) => n <= MAX_SEGMENT_BYTES,
            None => true,
        } by {
            assert(files.drop_last()[i] == files[i]);
        }
        lemma_sizes_sum_bound(files.drop_last());
        let l = files[files.len() - 1];
        assert(files.last() == l);
    }
}

/// The total that a log read reports stays within the limit it reports beside it,
/// when it reads at most six files of at most 1 MB each.
pub proof fn law_read_total_bounded(files: Seq<SegmentRead>)
    requires
        files.len() <= MAX_SEGMENTS + 1,
        forall|i: int| 0 <= i < files.len() ==> match #[trigger] files[i].size {
            Some(n) => n <= MAX_SEGMENT_BYTES,
            None => true,
        },
    ensures
        sizes_sum(files) <= MAX_TOTAL_BYTES,
{
    lemma_sizes_sum_bound(files);
    assert(files.len() * MAX_SEGMENT_BYTES <= 6 * MAX_SEGMENT_BYTES) by (nonlinear_arith)
        requires
            files.len() <= 6;
}

proof fn lemma_sizes_sum_prefix(files: Seq<SegmentRead>, k: int)
    requires
        0 <= k <= files.len(),
    ensures
        sizes_sum(files.take(k)) <= sizes_sum(files),
    decreases files.len(),
{
    if k < files.len() {
        assert(files.drop_last().take(k) =~= files.take(k));
        lemma_sizes_sum_prefix(files.drop_last(), k);
    } else {
        assert(files.take(k) =~= files);
    }
}

proof fn lemma_seq_sum_prefix(s: Seq<u64>, k: int)
    requires
        0 <= k <= s.len(),
    ensures
        seq_sum(s.take(k)) <= seq_sum(s),
    decreases s.len(),
{
    if k < s.len() {
        assert(s.drop_last().take(k) =~= s.take(k));
        lemma_seq_sum_prefix(s.drop_last(), k);
    } else {
        assert(s.take(k) =~= s);
    }
}

} // verus!
