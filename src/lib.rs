//! Parser for test files that describe a sequence of frames: edits to a
//! small set of source files, each with the diagnostics it is expected to
//! produce. A file opens with `key = value` options, then holds frames:
//!
//! ```text
//! whiley.verify = false
//! ====
//! >>> main.whiley
//! method main():
//! ---
//! E101 main.whiley 1,2
//! ====
//! <<< other.whiley
//! >>> main.whiley 1:1
//! method main()
//! ```
//!
//! Every parse function is verified against a specification over character
//! sequences, given in `parser` and `text`.
use vstd::prelude::*;

pub mod parser;
pub mod text;
pub mod laws;

use crate::parser::{document_of, Parser};
use crate::text::same_text;

verus! {

// ===============================================================
// Error
// ===============================================================
/// The reason a parse fails; the first malformed line decides it.
#[derive(Clone, Copy, Debug, PartialEq, Eq, Structural)]
pub enum Error {
    UnexpectedEof,
    InvalidConfigOption,
    InvalidConfigValue,
    InvalidIntValue,
    InvalidStringValue,
    InvalidAction,
    InvalidRange,
    InvalidMarker,
    InvalidErrorCode,
    InvalidCoordinate,
}

pub type Result<T> = core::result::Result<T, Error>;

/// A result with its success value replaced by that value's view.
pub open spec fn view_result<T: View>(r: Result<T>) -> core::result::Result<T::V, Error> {
    match r {
        Ok(v) => Ok(v@),
        Err(e) => Err(e),
    }
}

// ===============================================================
// Config
// ===============================================================
/// A configuration value.
#[derive(Clone, Debug, PartialEq)]
pub enum Value {
    String(String),
    Int(i64),
    Bool(bool),
}

/// A configuration value, with its text as a character sequence.
pub enum ValueView {
    Str(Seq<char>),
    Int(i64),
    Bool(bool),
}

impl View for Value {
    type V = ValueView;

    open spec fn view(&self) -> ValueView {
        match self {
            Value::String(s) => ValueView::Str(s@),
            Value::Int(i) => ValueView::Int(*i),
            Value::Bool(b) => ValueView::Bool(*b),
        }
    }
}

/// The options of a test file, in the order they were written; a later
/// option for the same key hides an earlier one.
pub(crate) struct Config {
    entries: Vec<(String, Value)>,
}

/// The mapping that a list of options denotes: the last write to a key wins.
pub open spec fn entries_map(e: Seq<(String, Value)>) -> Map<Seq<char>, ValueView>
    decreases e.len(),
{
    if e.len() == 0 {
        Map::empty()
    } else {
        entries_map(e.drop_last()).insert(e.last().0@, e.last().1@)
    }
}

proof fn lemma_entries_map_suffix(e: Seq<(String, Value)>, i: int, k: Seq<char>)
    requires
        0 <= i <= e.len(),
        forall|j: int| i <= j < e.len() ==> (#[trigger] e[j]).0@ != k,
    ensures
        entries_map(e).contains_key(k) == entries_map(e.take(i)).contains_key(k),
        entries_map(e).contains_key(k) ==> entries_map(e)[k] == entries_map(e.take(i))[k],
    decreases e.len(),
{
    if i < e.len() {
        assert(e.drop_last().take(i) =~= e.take(i));
        assert(e.last().0@ != k);
        lemma_entries_map_suffix(e.drop_last(), i, k);
    } else {
        assert(e.take(i) =~= e);
    }
}

impl View for Config {
    type V = Map<Seq<char>, ValueView>;

    closed spec fn view(&self) -> Map<Seq<char>, ValueView> {
        entries_map(self.entries@)
    }
}

impl Config {
    pub fn new() -> (r: Config)
        ensures
            r@ == Map::<Seq<char>, ValueView>::empty(),
    {
        Config { entries: Vec::new() }
    }

    /// Sets `key` to `value`, replacing what it held.
    pub fn insert(&mut self, key: String, value: Value)
        ensures
            final(self)@ == old(self)@.insert(key@, value@),
    {
        let ghost k = key@;
        let ghost v = value@;
        self.entries.push((key, value));
        proof {
            assert(self.entries@.drop_last() =~= old(self).entries@);
        }
    }

    /// The value of `key`, if it has one.
    pub fn get(&self, key: &str) -> (r: Option<&Value>)
        ensures
            r matches Some(v) ==> self@.contains_key(key@) && self@[key@] == v@,
            r is None ==> !self@.contains_key(key@),
    {
        let mut i: usize = self.entries.len();
        while i > 0
            invariant
                i <= self.entries@.len(),
                forall|j: int|
                    i <= j < self.entries@.len() ==> (#[trigger] self.entries@[j]).0@ != key@,
            decreases i,
        {
            if same_text(self.entries[i - 1].0.as_str(), key) {
                proof {
                    let e = self.entries@;
                    lemma_entries_map_suffix(e, i as int, key@);
                    assert(e.take(i as int).drop_last() =~= e.take(i - 1));
                    assert(e.take(i as int).last() == e[i - 1]);
                }
                return Some(&self.entries[i - 1].1);
            }
            i = i - 1;
        }
        proof {
            lemma_entries_map_suffix(self.entries@, 0, key@);
            assert(self.entries@.take(0) =~= Seq::<(String, Value)>::empty());
        }
        None
    }
}

// ===============================================================
// Range, Coordinate
// ===============================================================
/// An interval, for instance of characters within a line. The parser does
/// not order its ends: a reversed interval is kept as written.
#[derive(Clone, Copy, Debug, PartialEq, Eq)]
pub struct Range(pub usize, pub usize);

/// A line number and an interval of characters within that line.
#[derive(Clone, Copy, Debug, PartialEq, Eq)]
pub struct Coordinate(pub usize, pub Range);

// ===============================================================
// Marker
// ===============================================================
/// An error expected at a location in a given source file.
pub struct Marker {
    pub errno: u16,
    pub filename: String,
    pub location: Coordinate,
}

pub struct MarkerView {
    pub errno: u16,
    pub filename: Seq<char>,
    pub location: Coordinate,
}

impl View for Marker {
    type V = MarkerView;

    open spec fn view(&self) -> MarkerView {
        MarkerView { errno: self.errno, filename: self.filename@, location: self.location }
    }
}

// ===============================================================
// Action
// ===============================================================
/// An edit applied to one source file: its creation with the given lines,
/// its removal, or the replacement of an interval of its lines.
#[derive(Debug, PartialEq)]
pub enum Action {
    CREATE(String, Vec<String>),
    REMOVE(String),
    INSERT(String, Range, Vec<String>),
}

pub enum ActionView {
    Create(Seq<char>, Seq<Seq<char>>),
    Remove(Seq<char>),
    Insert(Seq<char>, Range, Seq<Seq<char>>),
}

/// The views of a sequence of strings.
pub open spec fn texts(v: Seq<String>) -> Seq<Seq<char>> {
    v.map_values(|s: String| s@)
}

impl View for Action {
    type V = ActionView;

    open spec fn view(&self) -> ActionView {
        match self {
            Action::CREATE(f, l) => ActionView::Create(f@, texts(l@)),
            Action::REMOVE(f) => ActionView::Remove(f@),
            Action::INSERT(f, r, l) => ActionView::Insert(f@, *r, texts(l@)),
        }
    }
}

impl Action {
    /// The lines that a creation or an insertion writes.
    pub fn lines(&self) -> (r: &[String])
        requires
            !(self is REMOVE),
        ensures
            self matches Action::CREATE(_, l) ==> r@ == l@,
            self matches Action::INSERT(_, _, l) ==> r@ == l@,
    {
        match self {
            Action::CREATE(_, lines) => lines.as_slice(),
            Action::INSERT(_, _, lines) => lines.as_slice(),
            Action::REMOVE(_) => unreached(),
        }
    }

    /// The interval that an insertion replaces.
    pub fn range(&self) -> (r: &Range)
        requires
            self is INSERT,
        ensures
            self matches Action::INSERT(_, x, _) ==> *r == x,
    {
        match self {
            Action::INSERT(_, r, _) => r,
            Action::CREATE(..) | Action::REMOVE(_) => unreached(),
        }
    }
}

// ===============================================================
// Frame
// ===============================================================
/// One step of a test: edits applied in order, then the errors expected of
/// the files as they then stand.
pub struct Frame {
    pub actions: Vec<Action>,
    pub markers: Vec<Marker>,
}

pub open spec fn action_views(v: Seq<Action>) -> Seq<ActionView> {
    v.map_values(|a: Action| a@)
}

pub open spec fn marker_views(v: Seq<Marker>) -> Seq<MarkerView> {
    v.map_values(|m: Marker| m@)
}

pub open spec fn frame_views(v: Seq<Frame>) -> Seq<FrameView> {
    v.map_values(|f: Frame| f@)
}

pub struct FrameView {
    pub actions: Seq<ActionView>,
    pub markers: Seq<MarkerView>,
}

impl View for Frame {
    type V = FrameView;

    open spec fn view(&self) -> FrameView {
        FrameView { actions: action_views(self.actions@), markers: marker_views(self.markers@) }
    }
}

// ===============================================================
// Test File
// ===============================================================
/// A parsed test file: its options and its frames.
pub struct WhileyTestFile {
    config: Config,
    frames: Vec<Frame>,
}

pub struct WhileyTestFileView {
    pub config: Map<Seq<char>, ValueView>,
    pub frames: Seq<FrameView>,
}

impl View for WhileyTestFile {
    type V = WhileyTestFileView;

    closed spec fn view(&self) -> WhileyTestFileView {
        WhileyTestFileView {
            config: self.config@,
            frames: frame_views(self.frames@),
        }
    }
}

impl WhileyTestFile {
    /// Parses a test file; fails with the error of the first malformed line.
    pub fn new(input: &str) -> (r: Result<WhileyTestFile>)
        ensures
            view_result(r) == document_of(input@),
    {
        // Construct parser
        let mut parser = Parser::new(input);
        // Parse file (with errors)
        parser.parse()
    }

    pub(crate) fn from_parts(config: Config, frames: Vec<Frame>) -> (r: WhileyTestFile)
        ensures
            r@.config == config@,
            r@.frames == frame_views(frames@),
    {
        WhileyTestFile { config, frames }
    }

    /// The configuration option of the given key.
    pub fn get(&self, key: &str) -> (r: Option<&Value>)
        ensures
            r matches Some(v) ==> self@.config.contains_key(key@) && self@.config[key@] == v@,
            r is None ==> !self@.config.contains_key(key@),
    {
        self.config.get(key)
    }

    /// The number of frames.
    pub fn size(&self) -> (r: usize)
        ensures
            r == self@.frames.len(),
    {
        self.frames.len()
    }

    /// The frame at position `n`.
    pub fn frame(&self, n: usize) -> (r: &Frame)
        requires
            n < self@.frames.len(),
        ensures
            r@ == self@.frames[n as int],
    {
        &self.frames[n]
    }

    /// The configuration option of the given key, if it is an integer.
    pub fn get_int(&self, key: &str) -> (r: Option<i64>)
        ensures
            r == (if self@.config.contains_key(key@) && self@.config[key@] is Int {
                Some(self@.config[key@]->Int_0)
            } else {
                None::<i64>
            }),
    {
        match self.config.get(key) {
            Some(Value::Int(i)) => Some(*i),
            _ => None,
        }
    }

    /// The configuration option of the given key, if it is a boolean.
    pub fn get_bool(&self, key: &str) -> (r: Option<bool>)
        ensures
            r == (if self@.config.contains_key(key@) && self@.config[key@] is Bool {
                Some(self@.config[key@]->Bool_0)
            } else {
                None::<bool>
            }),
    {
        match self.config.get(key) {
            Some(Value::Bool(b)) => Some(*b),
            _ => None,
        }
    }

    /// The configuration option of the given key, if it is a string.
    pub fn get_str(&self, key: &str) -> (r: Option<&String>)
        ensures
            r matches Some(s) ==> self@.config.contains_key(key@) && self@.config[key@]
                == ValueView::Str(s@),
            r is None ==> !(self@.config.contains_key(key@) && self@.config[key@] is Str),
    {
        match self.config.get(key) {
            Some(Value::String(s)) => Some(s),
            _ => None,
        }
    }
}

impl core::str::FromStr for WhileyTestFile {
    type Err = Error;

    fn from_str(input: &str) -> (r: Result<WhileyTestFile>)
        ensures
            view_result(r) == document_of(input@),
    {
        WhileyTestFile::new(input)
    }
}

} // verus!
