//! The line-oriented grammar of test files. Each parse function is
//! specified by a spec function of the same shape over character sequences;
//! the document as a whole by `document_of`.
use vstd::prelude::*;

use crate::text::{
    chars_of, has_prefix3, i64_of, is_digit, lines_of, parse_i64,
    parse_unsigned, same_text, split_ascii, split_lines, split_on, split_once_ascii, starts_with3,
    trim, trimmed, unsigned_of, views,
};
use crate::{
    texts, action_views, frame_views, marker_views, view_result, Action, ActionView, Config, Coordinate,
    Error, Frame, FrameView, Marker, MarkerView, Range, Result, Value, ValueView, WhileyTestFile,
    WhileyTestFileView,
};

verus! {

// ===============================================================
// Line classes
// ===============================================================
/// A line that opens a frame.
pub open spec fn is_frame_line(l: Seq<char>) -> bool {
    starts_with3(l, '=')
}

/// A line that opens an action: `>>>` creates or inserts, `<<<` removes.
pub open spec fn is_action_line(l: Seq<char>) -> bool {
    starts_with3(l, '>') || starts_with3(l, '<')
}

/// A line that opens the marker block of a frame.
pub open spec fn is_marker_line(l: Seq<char>) -> bool {
    starts_with3(l, '-')
}

/// A line that ends a run of content lines or of markers.
pub open spec fn is_stop_line(l: Seq<char>) -> bool {
    is_frame_line(l) || is_action_line(l) || is_marker_line(l)
}

// ===============================================================
// Values
// ===============================================================
/// `true` and `false`.
pub open spec fn bool_value_of(t: Seq<char>) -> Result<ValueView> {
    if t == seq!['t', 'r', 'u', 'e'] {
        Ok(ValueView::Bool(true))
    } else if t == seq!['f', 'a', 'l', 's', 'e'] {
        Ok(ValueView::Bool(false))
    } else {
        Err(Error::InvalidConfigValue)
    }
}

/// A signed 64-bit integer.
pub open spec fn int_value_of(t: Seq<char>) -> Result<ValueView> {
    match i64_of(t) {
        Some(i) => Ok(ValueView::Int(i)),
        None => Err(Error::InvalidIntValue),
    }
}

/// A token that opens with a quote: it must close with one and hold none
/// between; the text between is the value.
pub open spec fn string_value_of(t: Seq<char>) -> Result<ValueView> {
    if t.len() >= 2 && t.last() == '"' && !t.subrange(1, t.len() - 1).contains('"') {
        Ok(ValueView::Str(t.subrange(1, t.len() - 1)))
    } else {
        Err(Error::InvalidStringValue)
    }
}

/// A value, chosen by its first character.
pub open spec fn value_of(t: Seq<char>) -> Result<ValueView> {
    if t.len() > 0 && (is_digit(t[0]) || t[0] == '-') {
        int_value_of(t)
    } else if t.len() > 0 && t[0] == '"' {
        string_value_of(t)
    } else {
        bool_value_of(t)
    }
}

/// A configuration line `key = value` with exactly one `=`.
pub open spec fn entry_of(line: Seq<char>) -> Result<(Seq<char>, ValueView)> {
    let parts = split_on(line, '=');
    if parts.len() != 2 {
        Err(Error::InvalidConfigOption)
    } else {
        match value_of(trimmed(parts[1])) {
            Ok(v) => Ok((trimmed(parts[0]), v)),
            Err(e) => Err(e),
        }
    }
}

// ===============================================================
// Ranges, coordinates, error codes
// ===============================================================
pub open spec fn usize_of(t: Seq<char>) -> Option<nat> {
    unsigned_of(t, usize::MAX as nat)
}

/// `i` or `i:j`.
pub open spec fn range_of(t: Seq<char>) -> Result<Range> {
    let parts = split_on(t, ':');
    if parts.len() == 1 {
        match usize_of(parts[0]) {
            Some(i) => Ok(Range(i as usize, i as usize)),
            None => Err(Error::InvalidRange),
        }
    } else if parts.len() == 2 {
        match (usize_of(parts[0]), usize_of(parts[1])) {
            (Some(i), Some(j)) => Ok(Range(i as usize, j as usize)),
            _ => Err(Error::InvalidRange),
        }
    } else {
        Err(Error::InvalidRange)
    }
}

/// `line,range`.
pub open spec fn coordinate_of(t: Seq<char>) -> Result<Coordinate> {
    let parts = split_on(t, ',');
    if parts.len() != 2 {
        Err(Error::InvalidCoordinate)
    } else {
        match usize_of(parts[0]) {
            None => Err(Error::InvalidCoordinate),
            Some(l) => match range_of(parts[1]) {
                Ok(r) => Ok(Coordinate(l as usize, r)),
                Err(e) => Err(e),
            },
        }
    }
}

/// A sigil character, then a 16-bit unsigned number.
pub open spec fn error_code_of(t: Seq<char>) -> Result<u16> {
    let rest = if t.len() > 0 {
        t.drop_first()
    } else {
        t
    };
    match unsigned_of(rest, 0xFFFF) {
        Some(v) => Ok(v as u16),
        None => Err(Error::InvalidErrorCode),
    }
}

/// A marker line: code, file name and coordinate, one space apart.
pub open spec fn marker_of(line: Seq<char>) -> Result<MarkerView> {
    let tokens = split_on(trimmed(line), ' ');
    if tokens.len() != 3 {
        Err(Error::InvalidMarker)
    } else {
        match error_code_of(tokens[0]) {
            Err(e) => Err(e),
            Ok(n) => match coordinate_of(tokens[2]) {
                Err(e) => Err(e),
                Ok(c) => Ok(MarkerView { errno: n, filename: tokens[1], location: c }),
            },
        }
    }
}

/// An action whose header line is `line` and whose content is `content`:
/// `>>> file` creates, `>>> file range` inserts, `<<< file` removes.
pub open spec fn action_of(line: Seq<char>, content: Seq<Seq<char>>) -> Result<ActionView> {
    let tokens = split_on(trimmed(line), ' ');
    if starts_with3(line, '>') {
        if tokens.len() == 2 {
            Ok(ActionView::Create(tokens[1], content))
        } else if tokens.len() == 3 {
            match range_of(tokens[2]) {
                Ok(r) => Ok(ActionView::Insert(tokens[1], r, content)),
                Err(e) => Err(e),
            }
        } else {
            Err(Error::InvalidAction)
        }
    } else if tokens.len() == 2 {
        Ok(ActionView::Remove(tokens[1]))
    } else {
        Err(Error::InvalidAction)
    }
}

// ===============================================================
// Sections of the document
// ===============================================================
/// The end of the run of content lines that starts at line `i`: the first
/// stop line from `i` on, or the end of input.
pub open spec fn content_end(lines: Seq<Seq<char>>, i: int) -> int
    decreases lines.len() - i,
{
    if 0 <= i < lines.len() && !is_stop_line(lines[i]) {
        content_end(lines, i + 1)
    } else {
        i
    }
}

pub proof fn lemma_content_end(lines: Seq<Seq<char>>, i: int)
    requires
        0 <= i <= lines.len(),
    ensures
        i <= content_end(lines, i) <= lines.len(),
    decreases lines.len() - i,
{
    if i < lines.len() && !is_stop_line(lines[i]) {
        lemma_content_end(lines, i + 1);
    }
}

/// The action whose header is line `i`, and the line after its content.
pub open spec fn action_at(lines: Seq<Seq<char>>, i: int) -> Result<(ActionView, int)> {
    let j = content_end(lines, i + 1);
    match action_of(lines[i], lines.subrange(i + 1, j)) {
        Ok(a) => Ok((a, j)),
        Err(e) => Err(e),
    }
}

/// The actions from line `i` on, appended to `acc`, and the line after them.
pub open spec fn actions_from(lines: Seq<Seq<char>>, i: int, acc: Seq<ActionView>) -> Result<
    (Seq<ActionView>, int),
>
    decreases lines.len() - i,
{
    if 0 <= i < lines.len() && is_action_line(lines[i]) {
        proof {
            lemma_content_end(lines, i + 1);
        }
        match action_at(lines, i) {
            Ok((a, j)) => actions_from(lines, j, acc.push(a)),
            Err(e) => Err(e),
        }
    } else {
        Ok((acc, i))
    }
}

/// The markers from line `i` on, appended to `acc`, and the line after them.
pub open spec fn markers_from(lines: Seq<Seq<char>>, i: int, acc: Seq<MarkerView>) -> Result<
    (Seq<MarkerView>, int),
>
    decreases lines.len() - i,
{
    if 0 <= i < lines.len() && !is_stop_line(lines[i]) {
        match marker_of(lines[i]) {
            Ok(m) => markers_from(lines, i + 1, acc.push(m)),
            Err(e) => Err(e),
        }
    } else {
        Ok((acc, i))
    }
}

/// The frame whose delimiter is line `i`: its actions, then, if a `---`
/// line follows them, its markers; and the line after the frame.
pub open spec fn frame_at(lines: Seq<Seq<char>>, i: int) -> Result<(FrameView, int)> {
    match actions_from(lines, i + 1, seq![]) {
        Err(e) => Err(e),
        Ok((acts, j)) => if 0 <= j < lines.len() && is_marker_line(lines[j]) {
            match markers_from(lines, j + 1, seq![]) {
                Ok((ms, k)) => Ok((FrameView { actions: acts, markers: ms }, k)),
                Err(e) => Err(e),
            }
        } else {
            Ok((FrameView { actions: acts, markers: seq![] }, j))
        },
    }
}

pub proof fn lemma_actions_from_bounds(lines: Seq<Seq<char>>, i: int, acc: Seq<ActionView>)
    requires
        0 <= i <= lines.len(),
    ensures
        actions_from(lines, i, acc) matches Ok((_, j)) ==> i <= j <= lines.len(),
    decreases lines.len() - i,
{
    if i < lines.len() && is_action_line(lines[i]) {
        lemma_content_end(lines, i + 1);
        if let Ok((a, j)) = action_at(lines, i) {
            lemma_actions_from_bounds(lines, j, acc.push(a));
        }
    }
}

pub proof fn lemma_markers_from_bounds(lines: Seq<Seq<char>>, i: int, acc: Seq<MarkerView>)
    requires
        0 <= i <= lines.len(),
    ensures
        markers_from(lines, i, acc) matches Ok((_, j)) ==> i <= j <= lines.len(),
    decreases lines.len() - i,
{
    if i < lines.len() && !is_stop_line(lines[i]) {
        if let Ok(m) = marker_of(lines[i]) {
            lemma_markers_from_bounds(lines, i + 1, acc.push(m));
        }
    }
}

pub proof fn lemma_frame_at_bounds(lines: Seq<Seq<char>>, i: int)
    requires
        0 <= i < lines.len(),
    ensures
        frame_at(lines, i) matches Ok((_, j)) ==> i < j <= lines.len(),
{
    lemma_actions_from_bounds(lines, i + 1, seq![]);
    if let Ok((acts, j)) = actions_from(lines, i + 1, seq![]) {
        if 0 <= j < lines.len() && is_marker_line(lines[j]) {
            lemma_markers_from_bounds(lines, j + 1, seq![]);
        }
    }
}

/// The frames from line `i` on, appended to `acc`, and the line after them.
pub open spec fn frames_from(lines: Seq<Seq<char>>, i: int, acc: Seq<FrameView>) -> Result<
    (Seq<FrameView>, int),
>
    decreases lines.len() - i,
{
    if 0 <= i < lines.len() && is_frame_line(lines[i]) {
        proof {
            lemma_frame_at_bounds(lines, i);
        }
        match frame_at(lines, i) {
            Ok((f, j)) => frames_from(lines, j, acc.push(f)),
            Err(e) => Err(e),
        }
    } else {
        Ok((acc, i))
    }
}

/// The options from line `i` up to the first frame, added to `cfg`, and the
/// line where they end. Blank lines are skipped.
pub open spec fn config_from(
    lines: Seq<Seq<char>>,
    i: int,
    cfg: Map<Seq<char>, ValueView>,
) -> Result<(Map<Seq<char>, ValueView>, int)>
    decreases lines.len() - i,
{
    if 0 <= i < lines.len() && !is_frame_line(lines[i]) {
        if trimmed(lines[i]).len() == 0 {
            config_from(lines, i + 1, cfg)
        } else {
            match entry_of(trimmed(lines[i])) {
                Ok((k, v)) => config_from(lines, i + 1, cfg.insert(k, v)),
                Err(e) => Err(e),
            }
        }
    } else {
        Ok((cfg, i))
    }
}

/// The document from line `i` on: its options, then its frames; and the
/// line where parsing stopped.
pub open spec fn document_at(lines: Seq<Seq<char>>, i: int) -> Result<(WhileyTestFileView, int)> {
    match config_from(lines, i, Map::empty()) {
        Err(e) => Err(e),
        Ok((cfg, j)) => match frames_from(lines, j, seq![]) {
            Ok((fs, k)) => Ok((WhileyTestFileView { config: cfg, frames: fs }, k)),
            Err(e) => Err(e),
        },
    }
}

/// The document that a text denotes, or the error that rejects it.
pub open spec fn document_of(text: Seq<char>) -> Result<WhileyTestFileView> {
    match document_at(lines_of(text), 0) {
        Ok((d, _)) => Ok(d),
        Err(e) => Err(e),
    }
}

// ===============================================================
// Token parsers
// ===============================================================
fn is_frame_prefix(line: &str) -> (r: bool)
    ensures
        r == is_frame_line(line@),
{
    has_prefix3(line, '=')
}

fn is_action_prefix(line: &str) -> (r: bool)
    ensures
        r == is_action_line(line@),
{
    has_prefix3(line, '>') || has_prefix3(line, '<')
}

fn is_marker_prefix(line: &str) -> (r: bool)
    ensures
        r == is_marker_line(line@),
{
    has_prefix3(line, '-')
}

fn is_prefix(line: &str) -> (r: bool)
    ensures
        r == is_stop_line(line@),
{
    is_frame_prefix(line) || is_action_prefix(line) || is_marker_prefix(line)
}

fn parse_bool_value(input: &str) -> (r: Result<Value>)
    ensures
        view_result(r) == bool_value_of(input@),
{
    proof {
        reveal_strlit("true");
        reveal_strlit("false");
        assert("true"@ =~= seq!['t', 'r', 'u', 'e']);
        assert("false"@ =~= seq!['f', 'a', 'l', 's', 'e']);
    }
    if same_text(input, "true") {
        Ok(Value::Bool(true))
    } else if same_text(input, "false") {
        Ok(Value::Bool(false))
    } else {
        Err(Error::InvalidConfigValue)
    }
}

fn parse_int_value(input: &str) -> (r: Result<Value>)
    ensures
        view_result(r) == int_value_of(input@),
{
    match parse_i64(input) {
        Some(i) => Ok(Value::Int(i)),
        None => Err(Error::InvalidIntValue),
    }
}

fn parse_string_value(input: &str) -> (r: Result<Value>)
    ensures
        view_result(r) == string_value_of(input@),
{
    let cs = chars_of(input);
    let n = cs.len();
    if n >= 2 && cs[n - 1] == '"' {
        let content = input.substring_char(1, n - 1);
        if split_once_ascii(content, '"').is_none() {
            return Ok(Value::String(content.to_owned()));
        }
    }
    Err(Error::InvalidStringValue)
}

fn parse_value(input: &str) -> (r: Result<Value>)
    ensures
        view_result(r) == value_of(input@),
{
    let cs = chars_of(input);
    if cs.len() > 0 && (('0' <= cs[0] && cs[0] <= '9') || cs[0] == '-') {
        parse_int_value(input)
    } else if cs.len() > 0 && cs[0] == '"' {
        parse_string_value(input)
    } else {
        parse_bool_value(input)
    }
}

/// Parses a configuration line such as `wyc.compile = false`.
fn parse_kvp_line(line: &str) -> (r: Result<(String, Value)>)
    ensures
        r matches Ok((k, v)) ==> entry_of(line@) == Ok::<_, Error>((k@, v@)),
        r matches Err(e) ==> entry_of(line@) == Err::<(Seq<char>, ValueView), _>(e),
{
    let bits = split_ascii(line, '=');
    if bits.len() != 2 {
        Err(Error::InvalidConfigOption)
    } else {
        proof {
            assert(split_on(line@, '=')[0] == bits@[0]@);
            assert(split_on(line@, '=')[1] == bits@[1]@);
        }
        let key = trim(bits[0]).to_owned();
        let value = parse_value(trim(bits[1]))?;
        Ok((key, value))
    }
}

fn parse_range_index(input: &str) -> (r: Result<usize>)
    ensures
        r matches Ok(i) ==> usize_of(input@) == Some(i as nat),
        r matches Err(e) ==> usize_of(input@) is None && e == Error::InvalidRange,
{
    match parse_unsigned(input, usize::MAX as u64) {
        Some(i) => Ok(i as usize),
        None => Err(Error::InvalidRange),
    }
}

/// Parses a range: a single unsigned integer (`1`) or two separated by a
/// colon (`0:2`).
fn parse_range(input: &str) -> (r: Result<Range>)
    ensures
        r == range_of(input@),
{
    let split = split_ascii(input, ':');
    proof {
        assert(forall|k: int| 0 <= k < split@.len() ==> split_on(input@, ':')[k] == (
        #[trigger] split@[k])@);
    }
    if split.len() == 1 {
        let i = parse_range_index(split[0])?;
        Ok(Range(i, i))
    } else if split.len() == 2 {
        let i = parse_range_index(split[0])?;
        let j = parse_range_index(split[1])?;
        Ok(Range(i, j))
    } else {
        Err(Error::InvalidRange)
    }
}

fn parse_coordinate_index(input: &str) -> (r: Result<usize>)
    ensures
        r matches Ok(i) ==> usize_of(input@) == Some(i as nat),
        r matches Err(e) ==> usize_of(input@) is None && e == Error::InvalidCoordinate,
{
    match parse_unsigned(input, usize::MAX as u64) {
        Some(i) => Ok(i as usize),
        None => Err(Error::InvalidCoordinate),
    }
}

/// Parses a coordinate: a line number and a range within it (`1,0:2`).
fn parse_coordinate(input: &str) -> (r: Result<Coordinate>)
    ensures
        r == coordinate_of(input@),
{
    let split = split_ascii(input, ',');
    if split.len() == 2 {
        proof {
            assert(split_on(input@, ',')[0] == split@[0]@);
            assert(split_on(input@, ',')[1] == split@[1]@);
        }
        let line = parse_coordinate_index(split[0])?;
        let range = parse_range(split[1])?;
        Ok(Coordinate(line, range))
    } else {
        Err(Error::InvalidCoordinate)
    }
}

/// Parses an error code: a sigil followed by an unsigned integer (`E101`).
fn parse_error_code(input: &str) -> (r: Result<u16>)
    ensures
        r == error_code_of(input@),
{
    let n = input.unicode_len();
    let rest = if n > 0 {
        input.substring_char(1, n)
    } else {
        input
    };
    match parse_unsigned(rest, 0xFFFF) {
        Some(v) => Ok(v as u16),
        None => Err(Error::InvalidErrorCode),
    }
}

// ===============================================================
// Parser
// ===============================================================
/// A cursor over the lines of a test file.
pub struct Parser<'a> {
    // Identifies current line number.
    index: usize,
    // Holds the set of lines.
    lines: Vec<&'a str>,
}

impl<'a> Parser<'a> {
    /// The lines being parsed.
    pub closed spec fn spec_lines(&self) -> Seq<Seq<char>> {
        views(self.lines@)
    }

    /// The position of the cursor.
    pub closed spec fn spec_index(&self) -> int {
        self.index as int
    }

    /// Constructs a parser over the lines of `input`, at the first line.
    pub fn new(input: &'a str) -> (r: Self)
        ensures
            r.spec_lines() == lines_of(input@),
            r.spec_index() == 0,
    {
        let lines = split_lines(input);
        Parser { index: 0, lines }
    }

    /// Parses a whole document from the current line on.
    pub fn parse(&mut self) -> (r: Result<WhileyTestFile>)
        ensures
            final(self).spec_lines() == old(self).spec_lines(),
            r matches Ok(f) ==> document_at(old(self).spec_lines(), old(self).spec_index()) == Ok::<
                _,
                Error,
            >((f@, final(self).spec_index())),
            r matches Err(e) ==> document_at(old(self).spec_lines(), old(self).spec_index())
                == Err::<(WhileyTestFileView, int), _>(e),
    {
        let config = self.parse_config()?;
        let frames = self.parse_frames()?;
        Ok(WhileyTestFile::from_parts(config, frames))
    }

    /// Whether all lines have been consumed.
    pub fn eof(&self) -> (r: bool)
        ensures
            r == (self.spec_index() >= self.spec_lines().len()),
    {
        self.index >= self.lines.len()
    }

    /// The current line.
    pub fn peek(&self) -> (r: &'a str)
        requires
            self.spec_index() < self.spec_lines().len(),
        ensures
            r@ == self.spec_lines()[self.spec_index()],
    {
        self.lines[self.index]
    }

    /// The current line; the cursor moves past it.
    pub fn next(&mut self) -> (r: &'a str)
        requires
            old(self).spec_index() < old(self).spec_lines().len(),
        ensures
            r@ == old(self).spec_lines()[old(self).spec_index()],
            final(self).spec_lines() == old(self).spec_lines(),
            final(self).spec_index() == old(self).spec_index() + 1,
    {
        let n: usize = self.lines.len();
        let line = self.lines[self.index];
        proof {
            assert(self.index < n);
        }
        self.index = self.index + 1;
        line
    }

    /// Parses the options that precede the first frame.
    fn parse_config(&mut self) -> (r: Result<Config>)
        ensures
            final(self).spec_lines() == old(self).spec_lines(),
            r matches Ok(c) ==> config_from(
                old(self).spec_lines(),
                old(self).spec_index(),
                Map::empty(),
            ) == Ok::<_, Error>((c@, final(self).spec_index())),
            r matches Err(e) ==> config_from(
                old(self).spec_lines(),
                old(self).spec_index(),
                Map::empty(),
            ) == Err::<(Map<Seq<char>, ValueView>, int), _>(e),
    {
        let mut config = Config::new();
        // Continue parsing until start of first frame.
        while !self.eof() && !is_frame_prefix(self.peek())
            invariant
                self.spec_lines() == old(self).spec_lines(),
                config_from(old(self).spec_lines(), old(self).spec_index(), Map::empty())
                    == config_from(self.spec_lines(), self.spec_index(), config@),
            decreases self.spec_lines().len() - self.spec_index(),
        {
            let line = trim(self.next());
            // Skip empty lines.
            if !line.is_empty() {
                let (k, v) = parse_kvp_line(line)?;
                config.insert(k, v);
            }
        }
        Ok(config)
    }

    /// Parses the frames from the current line on.
    fn parse_frames(&mut self) -> (r: Result<Vec<Frame>>)
        ensures
            final(self).spec_lines() == old(self).spec_lines(),
            r matches Ok(fs) ==> frames_from(old(self).spec_lines(), old(self).spec_index(), seq![])
                == Ok::<_, Error>((frame_views(fs@), final(self).spec_index())),
            r matches Err(e) ==> frames_from(old(self).spec_lines(), old(self).spec_index(), seq![])
                == Err::<(Seq<FrameView>, int), _>(e),
    {
        let mut frames: Vec<Frame> = Vec::new();
        proof {
            assert(frame_views(frames@) =~= seq![]);
        }
        // Parse as many frames as there are.
        while !self.eof() && is_frame_prefix(self.peek())
            invariant
                self.spec_lines() == old(self).spec_lines(),
                frames_from(old(self).spec_lines(), old(self).spec_index(), seq![]) == frames_from(
                    self.spec_lines(),
                    self.spec_index(),
                    frame_views(frames@),
                ),
            decreases self.spec_lines().len() - self.spec_index(),
        {
            let ghost before = frames@;
            let f = self.parse_frame()?;
            frames.push(f);
            proof {
                assert(frame_views(frames@) =~= frame_views(before).push(f@));
            }
        }
        Ok(frames)
    }

    /// Parses the frame whose delimiter is the current line.
    fn parse_frame(&mut self) -> (r: Result<Frame>)
        requires
            old(self).spec_index() < old(self).spec_lines().len(),
        ensures
            final(self).spec_lines() == old(self).spec_lines(),
            r matches Ok(f) ==> frame_at(old(self).spec_lines(), old(self).spec_index()) == Ok::<
                _,
                Error,
            >((f@, final(self).spec_index())),
            r matches Err(e) ==> frame_at(old(self).spec_lines(), old(self).spec_index()) == Err::<
                (FrameView, int),
                _,
            >(e),
            r is Ok ==> old(self).spec_index() < final(self).spec_index() <= final(self).spec_lines().len(),
    {
        let ghost lines = self.spec_lines();
        let ghost start = self.spec_index();
        let _l = self.next();  // skip line beginning "==="
        let mut actions: Vec<Action> = Vec::new();
        proof {
            assert(action_views(actions@) =~= seq![]);
        }
        // Parse actions
        while !self.eof() && is_action_prefix(self.peek())
            invariant
                self.spec_lines() == lines,
                lines == old(self).spec_lines(),
                start == old(self).spec_index(),
                start + 1 <= self.spec_index() <= lines.len(),
                actions_from(lines, start + 1, seq![]) == actions_from(
                    lines,
                    self.spec_index(),
                    action_views(actions@),
                ),
            decreases lines.len() - self.spec_index(),
        {
            let ghost before = actions@;
            let a = self.parse_action()?;
            actions.push(a);
            proof {
                assert(action_views(actions@) =~= action_views(before).push(a@));
            }
        }
        let ghost j = self.spec_index();
        proof {
            lemma_actions_from_bounds(lines, start + 1, seq![]);
        }
        // Parse any markers
        let mut markers: Vec<Marker> = Vec::new();
        proof {
            assert(marker_views(markers@) =~= seq![]);
        }
        if !self.eof() && is_marker_prefix(self.peek()) {
            self.next();  // skip prefix
            while !self.eof() && !is_prefix(self.peek())
                invariant
                    self.spec_lines() == lines,
                    lines == old(self).spec_lines(),
                    start == old(self).spec_index(),
                    0 <= j < lines.len(),
                    is_marker_line(lines[j]),
                    actions_from(lines, start + 1, seq![]) == Ok::<_, Error>(
                        (action_views(actions@), j),
                    ),
                    j + 1 <= self.spec_index() <= lines.len(),
                    markers_from(lines, j + 1, seq![]) == markers_from(
                        lines,
                        self.spec_index(),
                        marker_views(markers@),
                    ),
                decreases lines.len() - self.spec_index(),
            {
                let ghost before = markers@;
                let m = self.parse_marker()?;
                markers.push(m);
                proof {
                    assert(marker_views(markers@) =~= marker_views(before).push(m@));
                }
            }
        }
        Ok(Frame { actions, markers })
    }

    /// Parses the action whose header is the current line, with its content.
    fn parse_action(&mut self) -> (r: Result<Action>)
        requires
            old(self).spec_index() < old(self).spec_lines().len(),
        ensures
            final(self).spec_lines() == old(self).spec_lines(),
            r matches Ok(a) ==> action_at(old(self).spec_lines(), old(self).spec_index()) == Ok::<
                _,
                Error,
            >((a@, final(self).spec_index())),
            r matches Err(e) ==> action_at(old(self).spec_lines(), old(self).spec_index()) == Err::<
                (ActionView, int),
                _,
            >(e),
            r is Ok ==> old(self).spec_index() < final(self).spec_index() <= final(self).spec_lines().len(),
    {
        let ghost lines = self.spec_lines();
        let ghost start = self.spec_index();
        let header = self.next();
        let line = trim(header);
        // Split action header by spaces.
        let split = split_ascii(line, ' ');
        let create = has_prefix3(header, '>');
        proof {
            assert(forall|k: int| 0 <= k < split@.len() ==> split_on(line@, ' ')[k] == (
            #[trigger] split@[k])@);
        }
        // Parse (optional) range.
        let range = if create && split.len() == 3 {
            Some(parse_range(split[2])?)
        } else if split.len() == 2 {
            None
        } else {
            return Err(Error::InvalidAction);
        };
        let filename = split[1].to_owned();
        // Parse action content
        let mut content: Vec<String> = Vec::new();
        proof {
            assert(texts(content@) =~= lines.subrange(start + 1, start + 1));
        }
        while !self.eof() && !is_prefix(self.peek())
            invariant
                self.spec_lines() == lines,
                lines == old(self).spec_lines(),
                start == old(self).spec_index(),
                start + 1 <= self.spec_index() <= lines.len(),
                texts(content@) == lines.subrange(start + 1, self.spec_index()),
                content_end(lines, start + 1) == content_end(lines, self.spec_index()),
            decreases lines.len() - self.spec_index(),
        {
            let ghost before = content@;
            let l = self.next().to_owned();
            content.push(l);
            proof {
                assert(l@ == lines[self.spec_index() - 1]);
                assert(texts(content@) =~= texts(before).push(l@));
                assert(lines.subrange(start + 1, self.spec_index()) =~= lines.subrange(
                    start + 1,
                    self.spec_index() - 1,
                ).push(l@));
            }
        }
        // Determine action kind
        let act = if create {
            match range {
                Some(r) => Action::INSERT(filename, r, content),
                None => Action::CREATE(filename, content),
            }
        } else {
            Action::REMOVE(filename)
        };
        Ok(act)
    }

    /// Parses the marker on the current line, such as `E101 main.whiley 1,2:3`.
    fn parse_marker(&mut self) -> (r: Result<Marker>)
        requires
            old(self).spec_index() < old(self).spec_lines().len(),
        ensures
            final(self).spec_lines() == old(self).spec_lines(),
            final(self).spec_index() == old(self).spec_index() + 1,
            r matches Ok(m) ==> marker_of(old(self).spec_lines()[old(self).spec_index()]) == Ok::<
                _,
                Error,
            >(m@),
            r matches Err(e) ==> marker_of(old(self).spec_lines()[old(self).spec_index()])
                == Err::<MarkerView, _>(e),
    {
        let line = trim(self.next());
        // Split line into components
        let split = split_ascii(line, ' ');
        if split.len() == 3 {
            proof {
                assert(forall|k: int| 0 <= k < split@.len() ==> split_on(line@, ' ')[k] == (
                #[trigger] split@[k])@);
            }
            let errno = parse_error_code(split[0])?;
            let filename = split[1].to_owned();
            let location = parse_coordinate(split[2])?;
            Ok(Marker { errno, filename, location })
        } else {
            Err(Error::InvalidMarker)
        }
    }
}

} // verus!
