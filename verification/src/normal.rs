//! Normal mode: the plain caret motions with a count, and the key decisions
//! of the count / operator / `g`-prefix state machine.

use vstd::prelude::*;
use crate::edits::Op;
use crate::layout::{HALF_PAGE, ROWS};
use crate::motions::{
    advanced, bytes, column_of, is_boundary, lemma_after_ascii, line_end, line_end_of, line_start,
    line_start_of, move_down, move_left, move_right, move_up, next_boundary, prev_boundary,
    run_end, run_start, word_back_pos, word_end, word_end_pos, word_forward_pos,
};
use crate::palette::Key;
use crate::search::{search_outcome, search_repeat, SearchNotice};

verus! {

/// One step of a repeatable motion from `k`.
pub open spec fn step_of(b: Seq<u8>, c: char, k: int) -> int {
    if c == 'h' {
        if k > line_start_of(b, k) {
            prev_boundary(b, k)
        } else {
            k
        }
    } else if c == 'l' {
        if k < line_end_of(b, k) {
            next_boundary(b, k)
        } else {
            k
        }
    } else if c == 'j' {
        let le = line_end_of(b, k);
        if le >= b.len() {
            k
        } else {
            advanced(b, le + 1, column_of(b, k), line_end_of(b, le + 1))
        }
    } else if c == 'k' {
        let ls = line_start_of(b, k);
        if ls == 0 {
            k
        } else {
            advanced(b, line_start_of(b, ls - 1), column_of(b, k), ls - 1)
        }
    } else if c == 'w' {
        run_end(b, run_end(b, k, false), true)
    } else if c == 'b' {
        run_start(b, run_start(b, k, true), false)
    } else if c == 'e' {
        word_end(b, k)
    } else {
        k
    }
}

/// `n` steps of a repeatable motion from `k`.
pub open spec fn repeat_step(b: Seq<u8>, c: char, n: nat, k: int) -> int
    decreases n,
{
    if n == 0 {
        k
    } else {
        step_of(b, c, repeat_step(b, c, (n - 1) as nat, k))
    }
}

/// The motions that repeat with a count: `h l j k w b e`.
pub open spec fn repeatable(c: char) -> bool {
    c == 'h' || c == 'l' || c == 'j' || c == 'k' || c == 'w' || c == 'b' || c == 'e'
}

/// The plain motions: the repeatable ones, and `0 $ G`.
pub open spec fn plain_motion(c: char) -> bool {
    repeatable(c) || c == '0' || c == '$' || c == 'G'
}

/// Every motion `move_by` knows: the plain ones and the search repeats `n N`.
pub open spec fn is_motion(c: char) -> bool {
    plain_motion(c) || c == 'n' || c == 'N'
}

/// Where a plain motion with count `n` takes the caret from `k`.
pub open spec fn motion_target(b: Seq<u8>, c: char, n: nat, k: int) -> int {
    if c == '0' {
        line_start_of(b, k)
    } else if c == '$' {
        line_end_of(b, k)
    } else if c == 'G' {
        line_start_of(b, b.len() as int)
    } else {
        repeat_step(b, c, n, k)
    }
}

fn step(text: &str, c: char, k: usize) -> (r: usize)
    requires
        repeatable(c),
        is_boundary(bytes(text), k as int),
    ensures
        r == step_of(bytes(text), c, k as int),
        is_boundary(bytes(text), r as int),
{
    if c == 'h' {
        move_left(text, k)
    } else if c == 'l' {
        move_right(text, k)
    } else if c == 'j' {
        move_down(text, k)
    } else if c == 'k' {
        move_up(text, k)
    } else if c == 'w' {
        word_forward_pos(text, k)
    } else if c == 'b' {
        word_back_pos(text, k)
    } else {
        word_end_pos(text, k)
    }
}

/// Apply a caret motion shared by Normal and Visual (`h l j k`, `w b e`
/// with count `n`; `0 $ G`; and the search repeats `n`/`N` of
/// `last_search`): the new caret and any search notice, or `None` when `c`
/// is not a motion.
pub fn move_by(text: &str, caret: usize, last_search: &str, c: char, n: usize) -> (r: Option<
    (usize, Option<SearchNotice>),
>)
    requires
        is_boundary(bytes(text), caret as int),
    ensures
        r is None <==> !is_motion(c),
        plain_motion(c) ==> (r matches Some((k, notice)) && k == motion_target(
            bytes(text),
            c,
            n as nat,
            caret as int,
        ) && notice is None),
        (c == 'n' || c == 'N') ==> (r matches Some((k, notice)) && k == search_outcome(
            text@,
            caret as int,
            last_search@,
            n as nat,
            c == 'n',
        ).0 && notice == search_outcome(text@, caret as int, last_search@, n as nat, c == 'n').1),
        r matches Some((k, _)) ==> is_boundary(bytes(text), k as int),
{
    let ghost b = bytes(text);
    if c == 'h' || c == 'l' || c == 'j' || c == 'k' || c == 'w' || c == 'b' || c == 'e' {
        let mut k = caret;
        let mut i: usize = 0;
        while i < n
            invariant
                repeatable(c),
                b == bytes(text),
                i <= n,
                k == repeat_step(b, c, i as nat, caret as int),
                is_boundary(b, k as int),
            decreases n - i,
        {
            k = step(text, c, k);
            i += 1;
        }
        Some((k, None))
    } else if c == '0' {
        let k = line_start(text, caret);
        proof {
            if k > 0 {
                lemma_after_ascii(text@, k as int);
            }
        }
        Some((k, None))
    } else if c == '$' {
        Some((line_end(text, caret), None))
    } else if c == 'G' {
        let len = text.as_bytes().len();
        let k = line_start(text, len);
        proof {
            if k > 0 {
                lemma_after_ascii(text@, k as int);
            }
        }
        Some((k, None))
    } else if c == 'n' || c == 'N' {
        let (k, notice) = search_repeat(text, caret, last_search, n, c == 'n');
        Some((k, notice))
    } else {
        None
    }
}


/// Where a key from Normal mode enters Insert.
#[derive(Debug, Clone, Copy, PartialEq, Eq, Structural)]
pub enum InsertAt {
    /// `i`: at the caret.
    Here,
    /// `a`: after the char under the caret.
    After,
    /// `A`: at the end of the line.
    LineEnd,
    /// `I`: at the start of the line.
    LineStart,
    /// `o`: on a new line below.
    Below,
    /// `O`: on a new line above.
    Above,
}

/// What a Normal-mode key asks of the editor, once the count, operator and
/// `g` prefix are resolved.
#[derive(Debug, Clone, Copy, PartialEq, Eq, Structural)]
pub enum NormalAction {
    /// Nothing beyond the new pending state.
    Nothing,
    /// `Ctrl-d` (down) / `Ctrl-u` (up): half a screen by display rows.
    HalfPage(bool),
    /// A caret motion (see [`move_by`]) with its count; an unknown char is
    /// ignored there.
    Motion(char, usize),
    Redo,
    OpenPalette,
    OpenCommandPalette,
    /// An operator over the text object `i`/`a` (`true` for `a`) + selector.
    Object(Op, char, bool),
    /// `ndd`: delete `n` lines (yanking them first).
    DeleteLines(usize),
    /// `cc`: change the current line.
    ChangeLine,
    /// `nyy`: yank `n` lines.
    YankLines(usize),
    /// An operator from the caret over `n` of the motion `w b e 0 $`.
    OpTo(Op, char, usize),
    /// `gg`: to the top of the buffer.
    Top,
    /// `gr`: into the read-only View mode.
    View,
    /// `nx`: delete `n` chars, not past the line end (yanking them).
    DeleteChars(usize),
    Undo,
    /// `np`: paste `n` times after the caret.
    PasteAfter(usize),
    /// `nP`: paste `n` times before the caret.
    PasteBefore(usize),
    /// Enter Insert mode there.
    Insert(InsertAt),
    /// `v` (charwise, `false`) / `V` (linewise, `true`): Visual mode.
    Visual(bool),
    /// `:` or `/`: open the command line with that prompt.
    CommandLine(char),
}

/// Normal mode's half-typed command: a count, an operator waiting for its
/// motion, an `i`/`a` waiting for its text-object selector (`true` for
/// `a`), and a `g` waiting for its second key.
#[derive(Debug, Clone, Copy, PartialEq, Eq, Structural)]
pub struct Pending {
    pub count: usize,
    pub op: Option<Op>,
    pub obj: Option<bool>,
    pub g: bool,
}

/// Nothing pending.
pub open spec fn cleared() -> Pending {
    Pending { count: 0, op: None, obj: None, g: false }
}

/// `c` continues a count: a digit, except a leading `0` (the line-start
/// motion).
pub open spec fn counts(c: char, count: usize) -> bool {
    '0' <= c <= '9' && !(c == '0' && count == 0)
}

/// `count * 10`, saturating at `usize::MAX`.
pub open spec fn times_ten(count: usize) -> int {
    if count * 10 > usize::MAX {
        usize::MAX as int
    } else {
        count * 10
    }
}

/// The count after the digit `c`.
pub open spec fn next_count(count: usize, c: char) -> int {
    times_ten(count) + (c as u32 - '0' as u32)
}

/// The count a command uses: at least 1.
pub open spec fn reps(count: usize) -> usize {
    if count == 0 {
        1
    } else {
        count
    }
}

/// The pending state and action after `key` in Normal mode.
pub open spec fn normal_step(p: Pending, key: Key) -> (Pending, NormalAction) {
    match key {
        Key::HalfPageDown => (cleared(), NormalAction::HalfPage(true)),
        Key::HalfPageUp => (cleared(), NormalAction::HalfPage(false)),
        Key::Down => (cleared(), NormalAction::Motion('j', reps(p.count))),
        Key::Up => (cleared(), NormalAction::Motion('k', reps(p.count))),
        Key::Redo => (cleared(), NormalAction::Redo),
        Key::Palette => (cleared(), NormalAction::OpenPalette),
        Key::CommandPalette => (cleared(), NormalAction::OpenCommandPalette),
        Key::Char(c) => char_step(p, c),
        _ => (cleared(), NormalAction::Nothing),
    }
}

/// The pending state and action after the char `c` in Normal mode.
pub open spec fn char_step(p: Pending, c: char) -> (Pending, NormalAction) {
    let n = reps(p.count);
    match p.op {
        Some(op) => match p.obj {
            Some(around) => (
                Pending { count: 0, op: None, obj: None, ..p },
                NormalAction::Object(op, c, around),
            ),
            None => if counts(c, p.count) {
                (Pending { count: next_count(p.count, c) as usize, ..p }, NormalAction::Nothing)
            } else if c == 'i' || c == 'a' {
                (Pending { obj: Some(c == 'a'), count: 0, ..p }, NormalAction::Nothing)
            } else {
                let done = Pending { op: None, count: 0, ..p };
                if c == 'd' && op == Op::Delete {
                    (done, NormalAction::DeleteLines(n))
                } else if c == 'c' && op == Op::Change {
                    (done, NormalAction::ChangeLine)
                } else if c == 'y' && op == Op::Yank {
                    (done, NormalAction::YankLines(n))
                } else if c == 'w' || c == 'b' || c == 'e' || c == '0' || c == '$' {
                    (done, NormalAction::OpTo(op, c, n))
                } else {
                    (done, NormalAction::Nothing)
                }
            },
        },
        None => if p.g {
            let done = Pending { g: false, count: 0, ..p };
            if c == 'g' {
                (done, NormalAction::Top)
            } else if c == 'r' {
                (done, NormalAction::View)
            } else {
                (done, NormalAction::Nothing)
            }
        } else if counts(c, p.count) {
            (Pending { count: next_count(p.count, c) as usize, ..p }, NormalAction::Nothing)
        } else if c == 'g' {
            (Pending { g: true, ..p }, NormalAction::Nothing)
        } else if c == 'd' {
            (Pending { op: Some(Op::Delete), ..p }, NormalAction::Nothing)
        } else if c == 'c' {
            (Pending { op: Some(Op::Change), ..p }, NormalAction::Nothing)
        } else if c == 'y' {
            (Pending { op: Some(Op::Yank), ..p }, NormalAction::Nothing)
        } else if c == ':' || c == '/' {
            (cleared(), NormalAction::CommandLine(c))
        } else {
            let done = Pending { count: 0, ..p };
            if c == 'x' {
                (done, NormalAction::DeleteChars(n))
            } else if c == 'u' {
                (done, NormalAction::Undo)
            } else if c == 'p' {
                (done, NormalAction::PasteAfter(n))
            } else if c == 'P' {
                (done, NormalAction::PasteBefore(n))
            } else if c == 'i' {
                (done, NormalAction::Insert(InsertAt::Here))
            } else if c == 'a' {
                (done, NormalAction::Insert(InsertAt::After))
            } else if c == 'A' {
                (done, NormalAction::Insert(InsertAt::LineEnd))
            } else if c == 'I' {
                (done, NormalAction::Insert(InsertAt::LineStart))
            } else if c == 'o' {
                (done, NormalAction::Insert(InsertAt::Below))
            } else if c == 'O' {
                (done, NormalAction::Insert(InsertAt::Above))
            } else if c == 'v' {
                (done, NormalAction::Visual(false))
            } else if c == 'V' {
                (done, NormalAction::Visual(true))
            } else {
                (done, NormalAction::Motion(c, n))
            }
        },
    }
}

/// The key would extend a count past what `usize` holds.
pub open spec fn count_overflows(p: Pending, key: Key) -> bool {
    match key {
        Key::Char(c) => (p.op is None || p.obj is None) && !(p.op is None && p.g) && counts(
            c,
            p.count,
        ) && next_count(p.count, c) > usize::MAX,
        _ => false,
    }
}

fn with_digit(count: usize, c: char) -> (r: usize)
    requires
        '0' <= c <= '9',
        next_count(count, c) <= usize::MAX,
    ensures
        r == next_count(count, c),
{
    let d = (c as u32 - '0' as u32) as usize;
    let t = if count > usize::MAX / 10 {
        assert(count * 10 > usize::MAX) by (nonlinear_arith)
            requires
                count > usize::MAX / 10,
        ;
        usize::MAX
    } else {
        assert(count * 10 <= usize::MAX) by (nonlinear_arith)
            requires
                count <= usize::MAX / 10,
        ;
        count * 10
    };
    t + d
}

/// A key in Normal mode: updates the half-typed command in `p` and says
/// what to do. A count accumulates (a leading `0` is the line-start motion),
/// `d`/`c`/`y` wait for a motion, text object (`i`/`a` + selector) or their
/// own letter again (`dd`, `cc`, `yy`), and `g` waits for `g` (top) or `r`
/// (View); any other char runs with the count. The non-char keys abandon
/// what was pending: `Ctrl-n`/`Ctrl-p` move a line (with the count),
/// `Ctrl-d`/`Ctrl-u` half a screen, and the palette keys open it.
pub fn normal_key(p: &mut Pending, key: Key) -> (r: NormalAction)
    requires
        !count_overflows(*old(p), key),
    ensures
        (*final(p), r) == normal_step(*old(p), key),
{
    let c = match key {
        Key::Char(c) => c,
        Key::HalfPageDown => {
            *p = Pending { count: 0, op: None, obj: None, g: false };
            return NormalAction::HalfPage(true);
        },
        Key::HalfPageUp => {
            *p = Pending { count: 0, op: None, obj: None, g: false };
            return NormalAction::HalfPage(false);
        },
        Key::Down => {
            let n = if p.count == 0 {
                1
            } else {
                p.count
            };
            *p = Pending { count: 0, op: None, obj: None, g: false };
            return NormalAction::Motion('j', n);
        },
        Key::Up => {
            let n = if p.count == 0 {
                1
            } else {
                p.count
            };
            *p = Pending { count: 0, op: None, obj: None, g: false };
            return NormalAction::Motion('k', n);
        },
        Key::Redo => {
            *p = Pending { count: 0, op: None, obj: None, g: false };
            return NormalAction::Redo;
        },
        Key::Palette => {
            *p = Pending { count: 0, op: None, obj: None, g: false };
            return NormalAction::OpenPalette;
        },
        Key::CommandPalette => {
            *p = Pending { count: 0, op: None, obj: None, g: false };
            return NormalAction::OpenCommandPalette;
        },
        _ => {
            *p = Pending { count: 0, op: None, obj: None, g: false };
            return NormalAction::Nothing;
        },
    };
    let is_count = '0' <= c && c <= '9' && !(c == '0' && p.count == 0);
    let n = if p.count == 0 {
        1
    } else {
        p.count
    };
    if let Some(op) = p.op {
        if let Some(around) = p.obj {
            p.obj = None;
            p.op = None;
            p.count = 0;
            return NormalAction::Object(op, c, around);
        }
        if is_count {
            p.count = with_digit(p.count, c);
            return NormalAction::Nothing;
        }
        if c == 'i' || c == 'a' {
            p.obj = Some(c == 'a');
            p.count = 0;
            return NormalAction::Nothing;
        }
        let act = if c == 'd' && op == Op::Delete {
            NormalAction::DeleteLines(n)
        } else if c == 'c' && op == Op::Change {
            NormalAction::ChangeLine
        } else if c == 'y' && op == Op::Yank {
            NormalAction::YankLines(n)
        } else if c == 'w' || c == 'b' || c == 'e' || c == '0' || c == '$' {
            NormalAction::OpTo(op, c, n)
        } else {
            NormalAction::Nothing
        };
        p.op = None;
        p.count = 0;
        return act;
    }
    if p.g {
        p.g = false;
        p.count = 0;
        return if c == 'g' {
            NormalAction::Top
        } else if c == 'r' {
            NormalAction::View
        } else {
            NormalAction::Nothing
        };
    }
    if is_count {
        p.count = with_digit(p.count, c);
        return NormalAction::Nothing;
    }
    if c == 'g' {
        p.g = true;
        return NormalAction::Nothing;
    }
    if c == 'd' || c == 'c' || c == 'y' {
        p.op = Some(
            if c == 'd' {
                Op::Delete
            } else if c == 'c' {
                Op::Change
            } else {
                Op::Yank
            },
        );
        return NormalAction::Nothing;
    }
    if c == ':' || c == '/' {
        *p = Pending { count: 0, op: None, obj: None, g: false };
        return NormalAction::CommandLine(c);
    }
    p.count = 0;
    if c == 'x' {
        NormalAction::DeleteChars(n)
    } else if c == 'u' {
        NormalAction::Undo
    } else if c == 'p' {
        NormalAction::PasteAfter(n)
    } else if c == 'P' {
        NormalAction::PasteBefore(n)
    } else if c == 'i' {
        NormalAction::Insert(InsertAt::Here)
    } else if c == 'a' {
        NormalAction::Insert(InsertAt::After)
    } else if c == 'A' {
        NormalAction::Insert(InsertAt::LineEnd)
    } else if c == 'I' {
        NormalAction::Insert(InsertAt::LineStart)
    } else if c == 'o' {
        NormalAction::Insert(InsertAt::Below)
    } else if c == 'O' {
        NormalAction::Insert(InsertAt::Above)
    } else if c == 'v' {
        NormalAction::Visual(false)
    } else if c == 'V' {
        NormalAction::Visual(true)
    } else {
        NormalAction::Motion(c, n)
    }
}


/// What a key in View mode asks of the editor besides the viewport.
#[derive(Debug, Clone, Copy, PartialEq, Eq, Structural)]
pub enum ViewAction {
    Stay,
    /// Esc: back to Normal.
    Leave,
    OpenPalette,
    OpenCommandPalette,
}

/// The key would scroll past what `usize` holds.
pub open spec fn view_overflows(top: usize, key: Key) -> bool {
    match key {
        Key::Char(c) => (c == 'j' && top + 1 > usize::MAX) || (c == ' ' && top + ROWS > usize::MAX),
        Key::Down => top + 1 > usize::MAX,
        Key::HalfPageDown => top + HALF_PAGE > usize::MAX,
        _ => false,
    }
}

/// `a - b`, or 0 below it.
pub open spec fn sat_sub(a: usize, b: usize) -> usize {
    if a >= b {
        (a - b) as usize
    } else {
        0
    }
}

/// The viewport's top row after `key` in View mode (before the draw
/// clamps it), over a layout of `total` rows.
pub open spec fn view_top(top: usize, g: bool, total: usize, key: Key) -> usize {
    match key {
        Key::Char('j') | Key::Down => (top + 1) as usize,
        Key::Char('k') | Key::Up => sat_sub(top, 1),
        Key::Char(' ') => (top + ROWS) as usize,
        Key::HalfPageDown => (top + HALF_PAGE) as usize,
        Key::HalfPageUp => sat_sub(top, HALF_PAGE),
        Key::Char('G') => sat_sub(total, ROWS),
        Key::Char('g') => if g {
            0
        } else {
            top
        },
        _ => top,
    }
}

/// A key in the read-only View mode: `j`/`k` (and `Ctrl-n`/`Ctrl-p`) step
/// the viewport a row, space a screen, `Ctrl-d`/`Ctrl-u` half a screen,
/// `G` to the last screen of the `total` layout rows, `gg` to the top; Esc
/// leaves, and the palette keys open it. The draw clamps the top row.
pub fn view_key(top: &mut usize, g: &mut bool, total: usize, key: Key) -> (r: ViewAction)
    requires
        !view_overflows(*old(top), key),
    ensures
        *final(top) == view_top(*old(top), *old(g), total, key),
        *final(g) == match key {
            Key::Char('g') => !*old(g),
            Key::Escape | Key::Palette | Key::CommandPalette => false,
            _ => *old(g),
        },
        r == match key {
            Key::Escape => ViewAction::Leave,
            Key::Palette => ViewAction::OpenPalette,
            Key::CommandPalette => ViewAction::OpenCommandPalette,
            _ => ViewAction::Stay,
        },
{
    match key {
        Key::Char('j') | Key::Down => {
            *top = *top + 1;
            ViewAction::Stay
        },
        Key::Char('k') | Key::Up => {
            if *top >= 1 {
                *top = *top - 1;
            }
            ViewAction::Stay
        },
        Key::Char(' ') => {
            *top = *top + ROWS;
            ViewAction::Stay
        },
        Key::HalfPageDown => {
            *top = *top + HALF_PAGE;
            ViewAction::Stay
        },
        Key::HalfPageUp => {
            *top = if *top >= HALF_PAGE {
                *top - HALF_PAGE
            } else {
                0
            };
            ViewAction::Stay
        },
        Key::Char('G') => {
            *top = if total >= ROWS {
                total - ROWS
            } else {
                0
            };
            ViewAction::Stay
        },
        Key::Char('g') => {
            if *g {
                *top = 0;
                *g = false;
            } else {
                *g = true;
            }
            ViewAction::Stay
        },
        Key::Escape => {
            *g = false;
            ViewAction::Leave
        },
        Key::Palette => {
            *g = false;
            ViewAction::OpenPalette
        },
        Key::CommandPalette => {
            *g = false;
            ViewAction::OpenCommandPalette
        },
        _ => ViewAction::Stay,
    }
}


/// The editor's modes.
#[derive(Debug, Clone, Copy, PartialEq, Eq, Structural)]
pub enum Mode {
    Normal,
    Insert,
    Visual,
    VisualLine,
    View,
    Command,
    Palette,
    Rest,
    About,
    Confirm,
    Help,
}

/// The `.` recorder: the change being recorded, if one is under way, and
/// the last complete change.
pub struct DotRecorder {
    pub recording: Option<Vec<Key>>,
    pub dot: Vec<Key>,
}

/// A change is complete once the editor is back in Normal with no operator
/// or text object still pending.
pub open spec fn complete(mode: Mode, p: Pending) -> bool {
    mode == Mode::Normal && p.op is None && p.obj is None
}

/// The key, from a clean Normal state, begins a repeatable change: an edit
/// (`x`, `p`, `P`), an entry into Insert, or a deleting or changing operator.
pub open spec fn starts_change(key: Key, mode: Mode, p: Pending) -> bool {
    key == Key::Char('x') || key == Key::Char('p') || key == Key::Char('P') || mode
        == Mode::Insert || p.op == Some(Op::Delete) || p.op == Some(Op::Change)
}

/// Record `key` for `.`, given the mode and whether a command was pending
/// before it, and the mode and pending state after it. A change under way
/// takes the key and, once complete, becomes the one `.` repeats; from a
/// clean Normal state a key that starts a change starts a recording (an
/// immediate edit completes at once). Pure motions and yanks never record.
pub fn record_dot(
    rec: &mut DotRecorder,
    key: Key,
    before_mode: Mode,
    before_pending: bool,
    mode: Mode,
    after: Pending,
)
    ensures
        ({
            let was = old(rec).recording;
            let taken: Option<Seq<Key>> = match was {
                Some(v) => Some(v@.push(key)),
                None => if before_mode == Mode::Normal && !before_pending && starts_change(
                    key,
                    mode,
                    after,
                ) {
                    Some(seq![key])
                } else {
                    None
                },
            };
            match taken {
                Some(t) => if complete(mode, after) {
                    final(rec).recording is None && final(rec).dot@ == t
                } else {
                    (final(rec).recording matches Some(v) && v@ == t) && final(rec).dot@ == old(
                        rec,
                    ).dot@
                },
                None => final(rec).recording is None && final(rec).dot@ == old(rec).dot@,
            }
        }),
{
    let done = mode == Mode::Normal && after.op.is_none() && after.obj.is_none();
    let taken = match rec.recording.take() {
        Some(mut v) => {
            v.push(key);
            Some(v)
        },
        None => {
            if before_mode == Mode::Normal && !before_pending && (key == Key::Char('x') || key
                == Key::Char('p') || key == Key::Char('P') || mode == Mode::Insert || after.op
                == Some(Op::Delete) || after.op == Some(Op::Change)) {
                let mut v: Vec<Key> = Vec::new();
                v.push(key);
                Some(v)
            } else {
                None
            }
        },
    };
    match taken {
        Some(v) => {
            if done {
                rec.dot = v;
            } else {
                rec.recording = Some(v);
            }
        },
        None => {},
    }
}


/// Where the editor sends a key.
#[derive(Debug, Clone, Copy, PartialEq, Eq, Structural)]
pub enum Route {
    /// The rest card is up: only its keys count ([`crate::modal::rest_key`]).
    Rest,
    /// A confirmation prompt is up ([`crate::modal::confirm_key`]).
    Confirm,
    /// The `:about` splash is up: `Enter`, `q` or Esc leave it.
    About,
    /// `Cmd-S` on a dirty buffer: write it, as `:w` does.
    SaveActive,
    /// `Cmd-S` on a clean buffer: only the notice, `saved` for a named one
    /// (`true`) or `no file name` for the scratch.
    SavedNotice(bool),
    /// `.` in a clean Normal state: replay the last change.
    RepeatDot,
    /// Everything else goes to the current mode's keys.
    Dispatch(Mode),
}

/// The route of `key` (see [`route_key`]).
pub open spec fn route_of(
    mode: Mode,
    dirty: bool,
    named: bool,
    replaying: bool,
    p: Pending,
    recording: bool,
    key: Key,
) -> Route {
    if mode == Mode::Rest {
        Route::Rest
    } else if mode == Mode::Confirm {
        Route::Confirm
    } else if mode == Mode::About {
        Route::About
    } else if key == Key::Save {
        if dirty {
            Route::SaveActive
        } else {
            Route::SavedNotice(named)
        }
    } else if !replaying && mode == Mode::Normal && p.op is None && p.obj is None && !recording
        && key == Key::Char('.') {
        Route::RepeatDot
    } else {
        Route::Dispatch(mode)
    }
}

/// Where one key goes. The full-screen modals (the rest card, a confirmation
/// prompt, the `:about` splash) take every key first, so a stray key cannot
/// slip a save or a repeat past them. `Cmd-S` saves from any other mode
/// without changing it: a dirty buffer is written, a clean one only gets the
/// notice. Past that point every key clears the notice (the caller does so
/// for `RepeatDot` and `Dispatch`). `.` in Normal with nothing pending, no
/// change being recorded and no replay running repeats the last change;
/// any other key goes to the mode's own keys.
pub fn route_key(
    mode: Mode,
    dirty: bool,
    named: bool,
    replaying: bool,
    p: Pending,
    recording: bool,
    key: Key,
) -> (r: Route)
    ensures
        r == route_of(mode, dirty, named, replaying, p, recording, key),
{
    if mode == Mode::Rest {
        Route::Rest
    } else if mode == Mode::Confirm {
        Route::Confirm
    } else if mode == Mode::About {
        Route::About
    } else if key == Key::Save {
        if dirty {
            Route::SaveActive
        } else {
            Route::SavedNotice(named)
        }
    } else if !replaying && mode == Mode::Normal && p.op.is_none() && p.obj.is_none()
        && !recording && key == Key::Char('.') {
        Route::RepeatDot
    } else {
        Route::Dispatch(mode)
    }
}

/// The bookkeeping after a dispatched key.
#[derive(Debug, Clone, Copy, PartialEq, Eq, Structural)]
pub struct AfterKey {
    /// The snippet tab-stop session ends: it lives only in Insert.
    pub end_session: bool,
    /// The `.` recording under way is dropped: a palette round trip is no
    /// repeatable edit.
    pub abort_recording: bool,
    /// The key goes to the `.` recorder ([`record_dot`]); a replayed key
    /// does not.
    pub record: bool,
}

/// What follows a dispatched key: a live snippet session ends once the
/// editor is out of Insert (`mode` is the mode after the key), the palette
/// keys abort a `.` recording, and every key but a replayed one is
/// recorded.
pub fn after_dispatch(mode: Mode, session_live: bool, replaying: bool, key: Key) -> (r: AfterKey)
    ensures
        r.end_session == (session_live && mode != Mode::Insert),
        r.abort_recording == (key == Key::Palette || key == Key::CommandPalette),
        r.record == !replaying,
{
    AfterKey {
        end_session: session_live && mode != Mode::Insert,
        abort_recording: key == Key::Palette || key == Key::CommandPalette,
        record: !replaying,
    }
}

// ---------------------------------------------------------------------------
// Laws of the Normal-mode grammar
// ---------------------------------------------------------------------------

/// The operator a letter names: `d` delete, `c` change, `y` yank.
pub open spec fn op_letter(op: Op) -> char {
    match op {
        Op::Delete => 'd',
        Op::Change => 'c',
        Op::Yank => 'y',
    }
}

/// `d`, `c` or `y` typed with nothing else half-typed waits for a motion,
/// keeping the count typed so far.
pub proof fn lemma_operator_starts(p: Pending, op: Op)
    requires
        p.op is None,
        p.obj is None,
        !p.g,
    ensures
        normal_step(p, Key::Char(op_letter(op))) == (
            Pending { op: Some(op), ..p },
            NormalAction::Nothing,
        ),
{
}

/// An operator followed by a motion: with `d`, `c` or `y` waiting (and no
/// `i`/`a`), each of the motions `w b e $`, and `0` when no count is being
/// typed, applies the operator from the caret over that motion taken
/// `count` times (at least once), and nothing is left half-typed but a `g`.
pub proof fn lemma_operator_motions(p: Pending, c: char)
    requires
        p.op is Some,
        p.obj is None,
        c == 'w' || c == 'b' || c == 'e' || c == '$' || (c == '0' && p.count == 0),
    ensures
        normal_step(p, Key::Char(c)) == (
            Pending { op: None, count: 0, obj: None, g: p.g },
            NormalAction::OpTo(
                p.op->0,
                c,
                if p.count == 0 {
                    1
                } else {
                    p.count
                },
            ),
        ),
{
}

/// An operator's own letter again works on whole lines: `dd` deletes and
/// `yy` yanks `count` lines (at least one), `cc` changes the line.
pub proof fn lemma_operator_doubled(p: Pending)
    requires
        p.op is Some,
        p.obj is None,
    ensures
        ({
            let (after, act) = normal_step(p, Key::Char(op_letter(p.op->0)));
            let n: usize = if p.count == 0 {
                1
            } else {
                p.count
            };
            &&& after.op is None && after.count == 0
            &&& act == match p.op->0 {
                Op::Delete => NormalAction::DeleteLines(n),
                Op::Change => NormalAction::ChangeLine,
                Op::Yank => NormalAction::YankLines(n),
            }
        }),
{
}

/// An operator with `i` or `a` waits for a text-object selector, and the
/// selector then applies the operator over that object (`a`: around).
pub proof fn lemma_operator_objects(p: Pending, ia: char, sel: char)
    requires
        p.op is Some,
        p.obj is None,
        ia == 'i' || ia == 'a',
    ensures
        normal_step(p, Key::Char(ia)).1 == NormalAction::Nothing,
        normal_step(normal_step(p, Key::Char(ia)).0, Key::Char(sel)).1 == NormalAction::Object(
            p.op->0,
            sel,
            ia == 'a',
        ),
        normal_step(normal_step(p, Key::Char(ia)).0, Key::Char(sel)).0.op is None,
{
}

/// With nothing half-typed but a count, the single-key commands run at
/// once with that count (at least one) and clear it: `x` deletes chars,
/// `u` undoes, `p`/`P` paste after/before, `i a A I o O` enter Insert at the
/// caret, after it, at the line's end or start, on a new line below or
/// above, `v`/`V` start Visual mode, and `:`/`/` open the command line.
pub proof fn lemma_single_keys(p: Pending, c: char)
    requires
        p.op is None,
        p.obj is None,
        !p.g,
    ensures
        ({
            let n: usize = if p.count == 0 {
                1
            } else {
                p.count
            };
            let (after, act) = normal_step(p, Key::Char(c));
            &&& c == 'x' ==> act == NormalAction::DeleteChars(n)
            &&& c == 'u' ==> act == NormalAction::Undo
            &&& c == 'p' ==> act == NormalAction::PasteAfter(n)
            &&& c == 'P' ==> act == NormalAction::PasteBefore(n)
            &&& c == 'i' ==> act == NormalAction::Insert(InsertAt::Here)
            &&& c == 'a' ==> act == NormalAction::Insert(InsertAt::After)
            &&& c == 'A' ==> act == NormalAction::Insert(InsertAt::LineEnd)
            &&& c == 'I' ==> act == NormalAction::Insert(InsertAt::LineStart)
            &&& c == 'o' ==> act == NormalAction::Insert(InsertAt::Below)
            &&& c == 'O' ==> act == NormalAction::Insert(InsertAt::Above)
            &&& c == 'v' ==> act == NormalAction::Visual(false)
            &&& c == 'V' ==> act == NormalAction::Visual(true)
            &&& (c == ':' || c == '/') ==> act == NormalAction::CommandLine(c)
            &&& (c == 'w' || c == 'b' || c == 'e' || c == '$' || c == 'h' || c == 'l' || c == 'j'
                || c == 'k' || (c == '0' && p.count == 0)) ==> act == NormalAction::Motion(c, n)
            &&& c != 'g' && c != 'd' && c != 'c' && c != 'y' && !('0' <= c <= '9') ==> after
                == cleared()
        }),
{
}

/// Digits build the count (a leading `0` is the line-start motion instead),
/// and `g` then `g` goes to the top, `g` then `r` into View mode.
pub proof fn lemma_count_and_g(p: Pending, c: char)
    requires
        p.op is None,
        p.obj is None,
        !p.g,
        '0' <= c <= '9',
        !(c == '0' && p.count == 0),
        p.count * 10 + 9 <= usize::MAX,
    ensures
        normal_step(p, Key::Char(c)) == (
            Pending { count: (p.count * 10 + (c as u32 - '0' as u32)) as usize, ..p },
            NormalAction::Nothing,
        ),
        normal_step(normal_step(p, Key::Char('g')).0, Key::Char('g')).1 == NormalAction::Top,
        normal_step(normal_step(p, Key::Char('g')).0, Key::Char('r')).1 == NormalAction::View,
{
}

} // verus!
