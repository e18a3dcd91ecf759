//! Properties of the document grammar, proved over the specification in
//! `parser`.
use vstd::prelude::*;

use crate::parser::{
    action_at, actions_from, config_from, content_end, document_at, document_of, entry_of,
    frame_at, frames_from, is_action_line, is_frame_line, is_marker_line, is_stop_line,
    lemma_actions_from_bounds, lemma_content_end, lemma_frame_at_bounds,
    lemma_markers_from_bounds, marker_of, markers_from, range_of, value_of,
};
use crate::text::{
    all_digits, digits_value, is_digit, is_space, lemma_first_index_at, lines_of, split_on,
    starts_with3, trim_end, trim_start, trimmed, unsigned_of,
};
use crate::{ActionView, Error, FrameView, MarkerView, Range, ValueView, WhileyTestFileView};

verus! {

// ===============================================================
// Which lines a section covers
// ===============================================================
/// The lines in `[i, j)` that open a frame.
pub open spec fn frame_lines(lines: Seq<Seq<char>>, i: int, j: int) -> Seq<Seq<char>>
    decreases j - i,
{
    if i < j {
        (if is_frame_line(lines[i]) {
            seq![lines[i]]
        } else {
            seq![]
        }) + frame_lines(lines, i + 1, j)
    } else {
        seq![]
    }
}

/// The lines in `[i, j)` that open an action, in order.
pub open spec fn action_lines(lines: Seq<Seq<char>>, i: int, j: int) -> Seq<Seq<char>>
    decreases j - i,
{
    if i < j {
        (if is_action_line(lines[i]) {
            seq![lines[i]]
        } else {
            seq![]
        }) + action_lines(lines, i + 1, j)
    } else {
        seq![]
    }
}

proof fn lemma_frame_lines_split(lines: Seq<Seq<char>>, i: int, j: int, k: int)
    requires
        i <= j <= k,
    ensures
        frame_lines(lines, i, k) == frame_lines(lines, i, j) + frame_lines(lines, j, k),
    decreases j - i,
{
    if i < j {
        lemma_frame_lines_split(lines, i + 1, j, k);
        assert(frame_lines(lines, i, k) =~= frame_lines(lines, i, j) + frame_lines(lines, j, k));
    } else {
        assert(frame_lines(lines, i, k) =~= frame_lines(lines, i, j) + frame_lines(lines, j, k));
    }
}

proof fn lemma_action_lines_split(lines: Seq<Seq<char>>, i: int, j: int, k: int)
    requires
        i <= j <= k,
    ensures
        action_lines(lines, i, k) == action_lines(lines, i, j) + action_lines(lines, j, k),
    decreases j - i,
{
    if i < j {
        lemma_action_lines_split(lines, i + 1, j, k);
        assert(action_lines(lines, i, k) =~= action_lines(lines, i, j) + action_lines(
            lines,
            j,
            k,
        ));
    } else {
        assert(action_lines(lines, i, k) =~= action_lines(lines, i, j) + action_lines(
            lines,
            j,
            k,
        ));
    }
}

proof fn lemma_no_frame_lines(lines: Seq<Seq<char>>, i: int, j: int)
    requires
        forall|n: int| i <= n < j ==> !is_frame_line(#[trigger] lines[n]),
    ensures
        frame_lines(lines, i, j) == Seq::<Seq<char>>::empty(),
    decreases j - i,
{
    if i < j {
        lemma_no_frame_lines(lines, i + 1, j);
        assert(frame_lines(lines, i, j) =~= Seq::<Seq<char>>::empty());
    }
}

proof fn lemma_no_action_lines(lines: Seq<Seq<char>>, i: int, j: int)
    requires
        forall|n: int| i <= n < j ==> !is_action_line(#[trigger] lines[n]),
    ensures
        action_lines(lines, i, j) == Seq::<Seq<char>>::empty(),
    decreases j - i,
{
    if i < j {
        lemma_no_action_lines(lines, i + 1, j);
        assert(action_lines(lines, i, j) =~= Seq::<Seq<char>>::empty());
    }
}

proof fn lemma_content_lines(lines: Seq<Seq<char>>, i: int)
    requires
        0 <= i <= lines.len(),
    ensures
        forall|n: int| i <= n < content_end(lines, i) ==> !is_stop_line(#[trigger] lines[n]),
    decreases lines.len() - i,
{
    if i < lines.len() && !is_stop_line(lines[i]) {
        lemma_content_lines(lines, i + 1);
    }
}

proof fn lemma_marker_block_lines(lines: Seq<Seq<char>>, i: int, acc: Seq<MarkerView>)
    requires
        0 <= i <= lines.len(),
    ensures
        markers_from(lines, i, acc) matches Ok((_, j)) ==> forall|n: int|
            i <= n < j ==> !is_stop_line(#[trigger] lines[n]),
    decreases lines.len() - i,
{
    if i < lines.len() && !is_stop_line(lines[i]) {
        if let Ok(m) = marker_of(lines[i]) {
            lemma_marker_block_lines(lines, i + 1, acc.push(m));
        }
    }
}

/// The header of an action gives its kind and file: `>>> file` a creation,
/// `>>> file range` an insertion at that range, `<<< file` a removal.
pub open spec fn header_yields(line: Seq<char>, a: ActionView) -> bool {
    let tokens = split_on(trimmed(line), ' ');
    if starts_with3(line, '>') {
        if tokens.len() == 2 {
            a is Create && a->Create_0 == tokens[1]
        } else {
            tokens.len() == 3 && a is Insert && a->Insert_0 == tokens[1] && range_of(tokens[2])
                == Ok::<Range, Error>(a->Insert_1)
        }
    } else {
        tokens.len() == 2 && a is Remove && a->Remove_0 == tokens[1]
    }
}

proof fn lemma_actions_from_lines(lines: Seq<Seq<char>>, i: int, acc: Seq<ActionView>)
    requires
        0 <= i <= lines.len(),
    ensures
        actions_from(lines, i, acc) matches Ok((acts, j)) ==> {
            &&& acts.len() == acc.len() + action_lines(lines, i, j).len()
            &&& acts.take(acc.len() as int) == acc
            &&& forall|n: int|
                0 <= n < action_lines(lines, i, j).len() ==> header_yields(
                    #[trigger] action_lines(lines, i, j)[n],
                    acts[acc.len() + n],
                )
            &&& forall|n: int| i <= n < j ==> !is_frame_line(#[trigger] lines[n])
                && !is_marker_line(lines[n])
        },
    decreases lines.len() - i,
{
    if i < lines.len() && is_action_line(lines[i]) {
        lemma_content_end(lines, i + 1);
        lemma_content_lines(lines, i + 1);
        if let Ok((a, j1)) = action_at(lines, i) {
            let acc1 = acc.push(a);
            lemma_actions_from_lines(lines, j1, acc1);
            lemma_actions_from_bounds(lines, j1, acc1);
            if let Ok((acts, j)) = actions_from(lines, i, acc) {
                lemma_no_action_lines(lines, i + 1, j1);
                lemma_action_lines_split(lines, i + 1, j1, j);
                assert(action_lines(lines, i, j) =~= seq![lines[i]] + action_lines(lines, j1, j));
                assert(acts.take(acc.len() as int) =~= acc) by {
                    assert(acts.take(acc1.len() as int) == acc1);
                    assert forall|n: int| 0 <= n < acc.len() implies acts[n] == acc[n] by {
                        assert(acts.take(acc1.len() as int)[n] == acc1[n]);
                    }
                }
                assert(acts[acc.len() as int] == a) by {
                    assert(acts.take(acc1.len() as int)[acc.len() as int] == acc1[acc.len() as int]);
                }
                assert forall|n: int|
                    0 <= n < action_lines(lines, i, j).len() implies header_yields(
                    #[trigger] action_lines(lines, i, j)[n],
                    acts[acc.len() + n],
                ) by {
                    if n > 0 {
                        assert(action_lines(lines, i, j)[n] == action_lines(lines, j1, j)[n - 1]);
                        assert(acc1.len() + (n - 1) == acc.len() + n);
                    }
                }
            }
        }
    } else {
        assert(acc.take(acc.len() as int) =~= acc);
    }
}

// ===============================================================
// Laws
// ===============================================================
/// The actions of a frame follow the order of their headers, and each header
/// gives its action's kind: `>>>` with a file alone creates that file,
/// `>>>` with a file and a range inserts at that range, `<<<` removes.
pub proof fn law_actions_follow_headers(lines: Seq<Seq<char>>, i: int)
    requires
        0 <= i < lines.len(),
    ensures
        frame_at(lines, i) matches Ok((f, k)) ==> {
            &&& f.actions.len() == action_lines(lines, i + 1, k).len()
            &&& forall|n: int|
                0 <= n < f.actions.len() ==> header_yields(
                    #[trigger] action_lines(lines, i + 1, k)[n],
                    f.actions[n],
                )
        },
{
    lemma_actions_from_lines(lines, i + 1, seq![]);
    lemma_actions_from_bounds(lines, i + 1, seq![]);
    if let Ok((acts, j)) = actions_from(lines, i + 1, seq![]) {
        if 0 <= j < lines.len() && is_marker_line(lines[j]) {
            lemma_marker_block_lines(lines, j + 1, seq![]);
            lemma_markers_from_bounds(lines, j + 1, seq![]);
            if let Ok((ms, k)) = markers_from(lines, j + 1, seq![]) {
                lemma_no_action_lines(lines, j, k);
                lemma_action_lines_split(lines, i + 1, j, k);
                assert(action_lines(lines, i + 1, k) =~= action_lines(lines, i + 1, j));
            }
        }
    }
}

/// A frame's markers come from its own `---` block: when no line between a
/// frame's delimiter and its end opens a marker block, it has no markers.
pub proof fn law_markers_stay_in_frame(lines: Seq<Seq<char>>, i: int)
    requires
        0 <= i < lines.len(),
    ensures
        frame_at(lines, i) matches Ok((f, k)) ==> ((forall|n: int|
            i < n < k ==> !is_marker_line(#[trigger] lines[n])) ==> f.markers.len() == 0),
{
    lemma_actions_from_bounds(lines, i + 1, seq![]);
    if let Ok((acts, j)) = actions_from(lines, i + 1, seq![]) {
        if 0 <= j < lines.len() && is_marker_line(lines[j]) {
            lemma_markers_from_bounds(lines, j + 1, seq![]);
        }
    }
}

proof fn lemma_frame_at_lines(lines: Seq<Seq<char>>, i: int)
    requires
        0 <= i < lines.len(),
        is_frame_line(lines[i]),
    ensures
        frame_at(lines, i) matches Ok((_, k)) ==> frame_lines(lines, i, k).len() == 1,
{
    lemma_frame_at_bounds(lines, i);
    lemma_actions_from_lines(lines, i + 1, seq![]);
    lemma_actions_from_bounds(lines, i + 1, seq![]);
    if let Ok((acts, j)) = actions_from(lines, i + 1, seq![]) {
        if let Ok((f, k)) = frame_at(lines, i) {
            if 0 <= j < lines.len() && is_marker_line(lines[j]) {
                lemma_marker_block_lines(lines, j + 1, seq![]);
                lemma_markers_from_bounds(lines, j + 1, seq![]);
                lemma_no_frame_lines(lines, i + 1, k);
            } else {
                lemma_no_frame_lines(lines, i + 1, k);
            }
            assert(frame_lines(lines, i, k) =~= seq![lines[i]] + frame_lines(lines, i + 1, k));
        }
    }
}

proof fn lemma_frames_from_count(lines: Seq<Seq<char>>, i: int, acc: Seq<FrameView>)
    requires
        0 <= i <= lines.len(),
    ensures
        frames_from(lines, i, acc) matches Ok((fs, k)) ==> fs.len() == acc.len() + frame_lines(
            lines,
            i,
            k,
        ).len(),
    decreases lines.len() - i,
{
    if i < lines.len() && is_frame_line(lines[i]) {
        lemma_frame_at_bounds(lines, i);
        lemma_frame_at_lines(lines, i);
        if let Ok((f, j)) = frame_at(lines, i) {
            lemma_frames_from_count(lines, j, acc.push(f));
            if let Ok((fs, k)) = frames_from(lines, i, acc) {
                lemma_frames_from_bounds(lines, j, acc.push(f));
                lemma_frame_lines_split(lines, i, j, k);
            }
        }
    } else {
        assert(frame_lines(lines, i, i) =~= Seq::<Seq<char>>::empty());
    }
}

proof fn lemma_frames_from_bounds(lines: Seq<Seq<char>>, i: int, acc: Seq<FrameView>)
    requires
        0 <= i <= lines.len(),
    ensures
        frames_from(lines, i, acc) matches Ok((_, k)) ==> i <= k <= lines.len(),
    decreases lines.len() - i,
{
    if i < lines.len() && is_frame_line(lines[i]) {
        lemma_frame_at_bounds(lines, i);
        if let Ok((f, j)) = frame_at(lines, i) {
            lemma_frames_from_bounds(lines, j, acc.push(f));
        }
    }
}

proof fn lemma_config_lines(
    lines: Seq<Seq<char>>,
    i: int,
    cfg: Map<Seq<char>, ValueView>,
)
    requires
        0 <= i <= lines.len(),
    ensures
        config_from(lines, i, cfg) matches Ok((_, j)) ==> i <= j <= lines.len() && forall|n: int|
            i <= n < j ==> !is_frame_line(#[trigger] lines[n]),
    decreases lines.len() - i,
{
    if i < lines.len() && !is_frame_line(lines[i]) {
        if trimmed(lines[i]).len() == 0 {
            lemma_config_lines(lines, i + 1, cfg);
        } else if let Ok((k, v)) = entry_of(trimmed(lines[i])) {
            lemma_config_lines(lines, i + 1, cfg.insert(k, v));
        }
    }
}

/// When parsing reads its input to the end, the document has one frame for
/// each line that starts with `===`.
pub proof fn law_frame_count(text: Seq<char>)
    requires
        document_at(lines_of(text), 0) matches Ok((_, k)) && k == lines_of(text).len(),
    ensures
        document_of(text) matches Ok(d) && d.frames.len() == frame_lines(
            lines_of(text),
            0,
            lines_of(text).len() as int,
        ).len(),
{
    let lines = lines_of(text);
    lemma_config_lines(lines, 0, Map::empty());
    if let Ok((cfg, j)) = config_from(lines, 0, Map::empty()) {
        lemma_frames_from_count(lines, j, seq![]);
        lemma_no_frame_lines(lines, 0, j);
        lemma_frame_lines_split(lines, 0, j, lines.len() as int);
    }
}

proof fn lemma_trim_start_len(s: Seq<char>)
    ensures
        trim_start(s).len() <= s.len(),
        s.len() > 0 && is_space(s[0]) ==> trim_start(s).len() < s.len(),
    decreases s.len(),
{
    if s.len() > 0 && is_space(s[0]) {
        lemma_trim_start_len(s.drop_first());
    }
}

proof fn lemma_trim_end_len(s: Seq<char>)
    ensures
        trim_end(s).len() <= s.len(),
        s.len() > 0 && is_space(s.last()) ==> trim_end(s).len() < s.len(),
    decreases s.len(),
{
    if s.len() > 0 && is_space(s.last()) {
        lemma_trim_end_len(s.drop_last());
    }
}

/// A nonempty text that trimming leaves alone starts and ends with non-space.
proof fn lemma_trimmed_ends(s: Seq<char>)
    requires
        s.len() > 0,
        trimmed(s) == s,
    ensures
        !is_space(s[0]),
        !is_space(s.last()),
        trim_start(s) == s,
        trim_end(s) == s,
{
    lemma_trim_start_len(s);
    lemma_trim_end_len(trim_start(s));
    if is_space(s[0]) {
        assert(false);
    }
    lemma_trim_end_len(s);
}

proof fn lemma_no_char_concat(a: Seq<char>, b: Seq<char>, c: char)
    requires
        !a.contains(c),
        !b.contains(c),
    ensures
        !(a + b).contains(c),
{
    if (a + b).contains(c) {
        let i = choose|i: int| 0 <= i < (a + b).len() && (a + b)[i] == c;
        if i < a.len() {
            assert(a[i] == c);
        } else {
            assert(b[i - a.len()] == c);
        }
    }
}

proof fn lemma_digits_lack(digits: Seq<char>, c: char)
    requires
        all_digits(digits),
        !('0' <= c && c <= '9'),
    ensures
        !digits.contains(c),
{
    if digits.contains(c) {
        let i = choose|i: int| 0 <= i < digits.len() && digits[i] == c;
        assert(is_digit(digits[i]));
    }
}

/// A line `key = value`, with a trimmed key free of `=` and a value token
/// free of `=` and of surrounding space, parses as that key and value.
proof fn lemma_entry_line(key: Seq<char>, value: Seq<char>)
    requires
        key.len() > 0,
        trimmed(key) == key,
        !key.contains('='),
        value.len() > 0,
        !is_space(value[0]),
        !is_space(value.last()),
        !value.contains('='),
    ensures
        ({
            let text = key + seq![' ', '=', ' '] + value;
            &&& !is_frame_line(text)
            &&& trimmed(text) == text
            &&& entry_of(text) == match value_of(value) {
                Ok(v) => Ok::<_, Error>((key, v)),
                Err(e) => Err(e),
            }
        }),
{
    let lhs = key + seq![' '];
    let rhs = seq![' '] + value;
    let text = key + seq![' ', '=', ' '] + value;
    assert(text =~= lhs + seq!['='] + rhs);
    lemma_trimmed_ends(key);
    assert(text[0] == key[0]);
    assert(key[0] != '=') by {
        if key[0] == '=' {
            assert(key.contains('='));
        }
    }
    assert(text.last() == value.last());
    assert(trimmed(text) == text);
    assert(!seq![' '].contains('='));
    lemma_no_char_concat(key, seq![' '], '=');
    lemma_no_char_concat(seq![' '], value, '=');
    lemma_first_index_at(text, '=', lhs, rhs);
    assert(text.contains('=')) by {
        assert(text[lhs.len() as int] == '=');
    }
    assert(split_on(rhs, '=') == seq![rhs]);
    assert(split_on(text, '=') =~= seq![lhs, rhs]);
    assert(lhs.drop_last() =~= key);
    assert(trim_end(lhs) == trim_end(key));
    assert(trimmed(lhs) == key);
    assert(rhs.drop_first() =~= value);
    assert(trim_start(rhs) == trim_start(value));
    assert(trimmed(rhs) == value);
}

/// A numeral with an optional `-` is the integer value it denotes.
proof fn lemma_numeral_value(negative: bool, digits: Seq<char>)
    requires
        digits.len() > 0,
        all_digits(digits),
        digits_value(digits) <= (if negative {
            0x8000_0000_0000_0000
        } else {
            i64::MAX as nat
        }),
    ensures
        ({
            let num = if negative {
                seq!['-'] + digits
            } else {
                digits
            };
            let n: int = if negative {
                -digits_value(digits)
            } else {
                digits_value(digits) as int
            };
            &&& num.len() > 0
            &&& !is_space(num[0])
            &&& !is_space(num.last())
            &&& !num.contains('=')
            &&& !num.contains('\n')
            &&& value_of(num) == Ok::<_, Error>(ValueView::Int(n as i64))
        }),
{
    let num = if negative {
        seq!['-'] + digits
    } else {
        digits
    };
    lemma_digits_lack(digits, '\n');
    lemma_digits_lack(digits, '=');
    assert(is_digit(digits[0]));
    assert(is_digit(digits[digits.len() - 1]));
    assert(num.last() == digits.last());
    if negative {
        assert(!seq!['-'].contains('\n') && !seq!['-'].contains('='));
        lemma_no_char_concat(seq!['-'], digits, '\n');
        lemma_no_char_concat(seq!['-'], digits, '=');
        assert(num.drop_first() =~= digits);
    } else {
        assert(unsigned_of(num, i64::MAX as nat) == Some(digits_value(digits)));
    }
}

/// A line `key = n`, where `n` is a decimal numeral with an optional `-`,
/// gives the option `key` the integer that `n` denotes, and nothing else.
pub proof fn law_integer_option(key: Seq<char>, negative: bool, digits: Seq<char>)
    requires
        key.len() > 0,
        trimmed(key) == key,
        !key.contains('='),
        !key.contains('\n'),
        digits.len() > 0,
        all_digits(digits),
        digits_value(digits) <= (if negative {
            0x8000_0000_0000_0000
        } else {
            i64::MAX as nat
        }),
    ensures
        ({
            let num = if negative {
                seq!['-'] + digits
            } else {
                digits
            };
            let n: int = if negative {
                -digits_value(digits)
            } else {
                digits_value(digits) as int
            };
            document_of(key + seq![' ', '=', ' '] + num) == Ok::<_, Error>(
                WhileyTestFileView {
                    config: Map::<Seq<char>, ValueView>::empty().insert(
                        key,
                        ValueView::Int(n as i64),
                    ),
                    frames: seq![],
                },
            )
        }),
{
    let num = if negative {
        seq!['-'] + digits
    } else {
        digits
    };
    let n: int = if negative {
        -digits_value(digits)
    } else {
        digits_value(digits) as int
    };
    let text = key + seq![' ', '=', ' '] + num;
    lemma_numeral_value(negative, digits);
    lemma_entry_line(key, num);
    assert(!seq![' ', '=', ' '].contains('\n'));
    lemma_no_char_concat(key, seq![' ', '=', ' '], '\n');
    lemma_no_char_concat(key + seq![' ', '=', ' '], num, '\n');
    assert(lines_of(text) == seq![text]);
    let lines = seq![text];
    let cfg = Map::<Seq<char>, ValueView>::empty().insert(key, ValueView::Int(n as i64));
    assert(config_from(lines, 1, cfg) == Ok::<_, Error>((cfg, 1int)));
    assert(config_from(lines, 0, Map::empty()) == Ok::<_, Error>((cfg, 1int)));
    assert(frames_from(lines, 1, seq![]) == Ok::<_, Error>(
        (Seq::<FrameView>::empty(), 1int),
    ));
}

/// Of two consecutive option lines with the same key, the later one decides
/// the value: the earlier one leaves no trace.
pub proof fn law_later_option_wins(
    lines: Seq<Seq<char>>,
    i: int,
    cfg: Map<Seq<char>, ValueView>,
    key: Seq<char>,
    first: ValueView,
    second: ValueView,
)
    requires
        0 <= i,
        i + 1 < lines.len(),
        !is_frame_line(lines[i]),
        !is_frame_line(lines[i + 1]),
        entry_of(trimmed(lines[i])) == Ok::<_, Error>((key, first)),
        entry_of(trimmed(lines[i + 1])) == Ok::<_, Error>((key, second)),
    ensures
        config_from(lines, i, cfg) == config_from(lines, i + 2, cfg.insert(key, second)),
{
    let empty = Seq::<char>::empty();
    assert(!empty.contains('='));
    assert(split_on(empty, '=') == seq![empty]);
    assert(trimmed(lines[i]).len() > 0);
    assert(trimmed(lines[i + 1]).len() > 0);
    assert(config_from(lines, i, cfg) == config_from(lines, i + 1, cfg.insert(key, first)));
    assert(config_from(lines, i + 1, cfg.insert(key, first)) == config_from(
        lines,
        i + 2,
        cfg.insert(key, first).insert(key, second),
    ));
    assert(cfg.insert(key, first).insert(key, second) =~= cfg.insert(key, second));
}

} // verus!
