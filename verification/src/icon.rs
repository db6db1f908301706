//! Vector icons: path data, outlines, filling and the brand icon set.
//!
//! An icon is authored as path data over a square view box. [`parse_path`] reads path data into an
//! [`IconPath`], whose [`IconPath::contours`] say which points make up its closed outlines, curves
//! cut into [`BEZIER_STEPS`] segments. [`render`] fills an outline by the even-odd rule.

use vstd::prelude::*;

use crate::ai::FloatBits;
use crate::strings::{from_range, str_eq, to_chars};

pub mod brand;

verus! {

/// Segments that a curve is cut into.
pub const BEZIER_STEPS: u32 = 16;

/// What a step of a path does.
#[derive(Debug, Clone, Copy, PartialEq, Eq, Structural)]
pub enum PathCommand {
    /// Begin a contour at a point (`M`).
    Move,
    /// Draw a line to a point (`L`).
    Line,
    /// Draw a horizontal line (`H`).
    Horizontal,
    /// Draw a vertical line (`V`).
    Vertical,
    /// Draw a cubic curve with two control points (`C`).
    Cubic,
    /// Draw a quadratic curve with one control point (`Q`).
    Quadratic,
    /// Close the contour (`Z`).
    Close,
}

/// One step of a path.
#[derive(Debug, Clone, PartialEq, Eq)]
pub struct PathStep {
    /// What the step does.
    pub command: PathCommand,
    /// Whether its numbers count from the current point.
    pub relative: bool,
    /// The numbers, as they are written: an optional sign and decimal digits with at most one
    /// point among them.
    pub numbers: Vec<String>,
}

/// The contents of a [`PathStep`].
pub struct StepView {
    /// What the step does.
    pub command: PathCommand,
    /// Whether its numbers count from the current point.
    pub relative: bool,
    /// The numbers, as they are written.
    pub numbers: Seq<Seq<char>>,
}

impl View for PathStep {
    type V = StepView;

    open spec fn view(&self) -> StepView {
        StepView {
            command: self.command,
            relative: self.relative,
            numbers: crate::lists::texts(self.numbers@),
        }
    }
}

/// The contents of a list of steps.
pub open spec fn step_views(v: Seq<PathStep>) -> Seq<StepView> {
    v.map_values(|s: PathStep| s@)
}

/// A character that may stand between numbers.
pub open spec fn is_separator(c: char) -> bool {
    c == ' ' || c == ',' || c == '\n' || c == '\t' || c == '\r'
}

/// A letter from `A` to `Z` or from `a` to `z`.
pub open spec fn is_letter(c: char) -> bool {
    'A' <= c <= 'Z' || 'a' <= c <= 'z'
}

/// The text without the separators at its front.
pub open spec fn after_separators(s: Seq<char>) -> Seq<char>
    decreases s.len(),
{
    if s.len() > 0 && is_separator(s[0]) {
        after_separators(s.drop_first())
    } else {
        s
    }
}

/// How many digits stand at the front.
pub open spec fn digit_run(s: Seq<char>) -> nat
    decreases s.len(),
{
    if s.len() > 0 && crate::strings::is_digit(s[0]) {
        1 + digit_run(s.drop_first())
    } else {
        0
    }
}

/// The lengths of the parts of a number at the front of the text: its sign, its digits before the
/// point, and its fraction with the point.
pub open spec fn number_parts(s: Seq<char>) -> (nat, nat, nat) {
    let sign: nat = if s.len() > 0 && (s[0] == '+' || s[0] == '-') {
        1
    } else {
        0
    };
    let whole = digit_run(s.skip(sign as int));
    let t = s.skip((sign + whole) as int);
    let fraction: nat = if t.len() > 0 && t[0] == '.' {
        1 + digit_run(t.skip(1))
    } else {
        0
    };
    (sign, whole, fraction)
}

/// The number at the front of the text, behind separators, and what follows it. A number has at
/// least one digit.
pub open spec fn number(s: Seq<char>) -> Option<(Seq<char>, Seq<char>)> {
    let t = after_separators(s);
    let (sign, whole, fraction) = number_parts(t);
    if whole == 0 && fraction <= 1 {
        None
    } else {
        let n = (sign + whole + fraction) as int;
        Some((t.take(n), t.skip(n)))
    }
}

/// The `k` numbers at the front of the text, and what follows them.
pub open spec fn numbers(s: Seq<char>, k: nat) -> Option<(Seq<Seq<char>>, Seq<char>)>
    decreases k,
{
    if k == 0 {
        Some((Seq::empty(), s))
    } else {
        match number(s) {
            None => None,
            Some((n, t)) => match numbers(t, (k - 1) as nat) {
                None => None,
                Some((more, u)) => Some((seq![n] + more, u)),
            },
        }
    }
}

/// What a command letter stands for, and whether its numbers are relative.
pub open spec fn meaning(c: char) -> Option<(PathCommand, bool)> {
    if c == 'M' || c == 'm' {
        Some((PathCommand::Move, c == 'm'))
    } else if c == 'L' || c == 'l' {
        Some((PathCommand::Line, c == 'l'))
    } else if c == 'H' || c == 'h' {
        Some((PathCommand::Horizontal, c == 'h'))
    } else if c == 'V' || c == 'v' {
        Some((PathCommand::Vertical, c == 'v'))
    } else if c == 'C' || c == 'c' {
        Some((PathCommand::Cubic, c == 'c'))
    } else if c == 'Q' || c == 'q' {
        Some((PathCommand::Quadratic, c == 'q'))
    } else if c == 'Z' || c == 'z' {
        Some((PathCommand::Close, c == 'z'))
    } else {
        None
    }
}

impl PathCommand {
    /// How many numbers the command takes.
    pub open spec fn arity(self) -> nat {
        match self {
            PathCommand::Move => 2,
            PathCommand::Line => 2,
            PathCommand::Horizontal => 1,
            PathCommand::Vertical => 1,
            PathCommand::Cubic => 6,
            PathCommand::Quadratic => 4,
            PathCommand::Close => 0,
        }
    }

    fn count(self) -> (n: usize)
        ensures
            n == self.arity(),
    {
        match self {
            PathCommand::Move => 2,
            PathCommand::Line => 2,
            PathCommand::Horizontal => 1,
            PathCommand::Vertical => 1,
            PathCommand::Cubic => 6,
            PathCommand::Quadratic => 4,
            PathCommand::Close => 0,
        }
    }
}

/// The command that numbers without a letter belong to: the one before them, but a line after a
/// move. A close takes no numbers, so none can follow it.
pub open spec fn repeated(last: Option<(PathCommand, bool)>) -> Option<(PathCommand, bool)> {
    match last {
        Some((PathCommand::Move, relative)) => Some((PathCommand::Line, relative)),
        Some((PathCommand::Close, _)) => None,
        _ => last,
    }
}

/// The next command of a text that is not empty and does not begin with a separator, and what
/// follows its letter.
pub open spec fn next_command(s: Seq<char>, last: Option<(PathCommand, bool)>) -> (
    Option<(PathCommand, bool)>,
    Seq<char>,
) {
    if is_letter(s[0]) {
        (meaning(s[0]), s.skip(1))
    } else {
        (repeated(last), s)
    }
}

/// The steps that path data denotes, after a step with the command `last`.
pub open spec fn steps(s: Seq<char>, last: Option<(PathCommand, bool)>) -> Option<Seq<StepView>>
    decreases s.len(),
    via steps_decreases
{
    let t = after_separators(s);
    if t.len() == 0 {
        Some(Seq::empty())
    } else {
        let (next, u) = next_command(t, last);
        match next {
            None => None,
            Some((command, relative)) => match numbers(u, command.arity()) {
                None => None,
                Some((ns, rest)) => match steps(rest, next) {
                    None => None,
                    Some(more) => Some(
                        seq![StepView { command, relative, numbers: ns }] + more,
                    ),
                },
            },
        }
    }
}

#[via_fn]
proof fn steps_decreases(s: Seq<char>, last: Option<(PathCommand, bool)>) {
    let t = after_separators(s);
    lemma_after_separators(s);
    if t.len() > 0 {
        let (next, u) = next_command(t, last);
        if let Some((command, _)) = next {
            lemma_numbers(u, command.arity());
        }
    }
}

proof fn lemma_after_separators(s: Seq<char>)
    ensures
        after_separators(s).len() <= s.len(),
        after_separators(s) == s.skip(s.len() - after_separators(s).len()),
    decreases s.len(),
{
    if s.len() > 0 && is_separator(s[0]) {
        lemma_after_separators(s.drop_first());
        assert(s.drop_first().skip(s.len() - 1 - after_separators(s).len()) == s.skip(
            s.len() - after_separators(s).len(),
        ));
    } else {
        assert(s.skip(0) == s);
    }
}

proof fn lemma_digit_run(s: Seq<char>)
    ensures
        digit_run(s) <= s.len(),
    decreases s.len(),
{
    if s.len() > 0 {
        lemma_digit_run(s.drop_first());
    }
}

proof fn lemma_number_parts(s: Seq<char>)
    ensures
        ({
            let (sign, whole, fraction) = number_parts(s);
            sign + whole + fraction <= s.len()
        }),
{
    let (sign, whole, fraction) = number_parts(s);
    lemma_digit_run(s.skip(sign as int));
    let t = s.skip((sign + whole) as int);
    if t.len() > 0 {
        lemma_digit_run(t.skip(1));
    }
}

proof fn lemma_numbers(s: Seq<char>, k: nat)
    ensures
        numbers(s, k) matches Some((ns, rest)) ==> ns.len() == k && rest.len() <= s.len() && (k > 0
            ==> rest.len() < s.len()),
    decreases k,
{
    if k > 0 {
        lemma_after_separators(s);
        lemma_number_parts(after_separators(s));
        if let Some((_, t)) = number(s) {
            lemma_numbers(t, (k - 1) as nat);
        }
    }
}

/// The position of the first character from `i` on that is no separator.
fn skip_separators(v: &[char], i: usize) -> (j: usize)
    requires
        i <= v@.len(),
    ensures
        i <= j <= v@.len(),
        v@.skip(j as int) == after_separators(v@.skip(i as int)),
{
    let mut j: usize = i;
    while j < v.len() && (v[j] == ' ' || v[j] == ',' || v[j] == '\n' || v[j] == '\t' || v[j] == '\r')
        invariant
            i <= j <= v@.len(),
            after_separators(v@.skip(j as int)) == after_separators(v@.skip(i as int)),
        decreases v@.len() - j,
    {
        assert(v@.skip(j as int).drop_first() == v@.skip(j + 1));
        j = j + 1;
    }
    j
}

/// The position of the first character from `i` on that is no digit.
fn skip_digits(v: &[char], i: usize) -> (j: usize)
    requires
        i <= v@.len(),
    ensures
        i <= j <= v@.len(),
        j - i == digit_run(v@.skip(i as int)),
{
    let mut j: usize = i;
    while j < v.len() && '0' <= v[j] && v[j] <= '9'
        invariant
            i <= j <= v@.len(),
            j - i + digit_run(v@.skip(j as int)) == digit_run(v@.skip(i as int)),
        decreases v@.len() - j,
    {
        assert(v@.skip(j as int).drop_first() == v@.skip(j + 1));
        j = j + 1;
    }
    j
}

/// The parts of the number at `a`, from the positions where they end.
proof fn lemma_parts_at(v: Seq<char>, a: int, b: int, c: int, d: int)
    requires
        0 <= a <= b <= c <= d <= v.len(),
        b - a == (if a < v.len() && (v[a] == '+' || v[a] == '-') {
            1int
        } else {
            0
        }),
        c - b == digit_run(v.skip(b)),
        d - c == (if c < v.len() && v[c] == '.' {
            1 + digit_run(v.skip(c + 1))
        } else {
            0
        }),
    ensures
        number_parts(v.skip(a)) == ((b - a) as nat, (c - b) as nat, (d - c) as nat),
{
    let t = v.skip(a);
    assert(t.skip(b - a) == v.skip(b));
    assert(t.skip(c - a) == v.skip(c));
    if c < v.len() {
        assert(v.skip(c).skip(1) == v.skip(c + 1));
    }
}

/// Reads the number at `i`: its text and the position behind it.
#[verifier::spinoff_prover]
fn read_number(v: &[char], i: usize) -> (r: Option<(String, usize)>)
    requires
        i <= v@.len(),
    ensures
        match r {
            Some((n, j)) => i <= j <= v@.len() && number(v@.skip(i as int)) == Some(
                (n@, v@.skip(j as int)),
            ),
            None => number(v@.skip(i as int)) is None,
        },
{
    let a: usize = skip_separators(v, i);
    let b: usize = if a < v.len() && (v[a] == '+' || v[a] == '-') {
        a + 1
    } else {
        a
    };
    let c: usize = skip_digits(v, b);
    let mut d: usize = c;
    if c < v.len() && v[c] == '.' {
        d = skip_digits(v, c + 1);
    }
    let ghost t = v@.skip(a as int);
    proof {
        lemma_parts_at(v@, a as int, b as int, c as int, d as int);
    }
    if c == b && d - c <= 1 {
        return None;
    }
    assert(v@.subrange(a as int, d as int) == t.take(d - a));
    assert(v@.skip(d as int) == t.skip(d - a));
    Some((from_range(v, a, d), d))
}

/// Reads `k` numbers from `i` on.
fn read_numbers(v: &[char], i: usize, k: usize) -> (r: Option<(Vec<String>, usize)>)
    requires
        i <= v@.len(),
    ensures
        match r {
            Some((ns, j)) => i <= j <= v@.len() && numbers(v@.skip(i as int), k as nat) == Some(
                (crate::lists::texts(ns@), v@.skip(j as int)),
            ),
            None => numbers(v@.skip(i as int), k as nat) is None,
        },
{
    let ghost s = v@.skip(i as int);
    let mut out: Vec<String> = Vec::new();
    let mut j: usize = i;
    let mut left: usize = k;
    assert(crate::lists::texts(out@) =~= Seq::empty());
    proof {
        if let Some((all, rest)) = numbers(s, k as nat) {
            assert(Seq::<Seq<char>>::empty() + all == all);
        }
    }
    while left > 0
        invariant
            i <= j <= v@.len(),
            s == v@.skip(i as int),
            match numbers(s, k as nat) {
                Some((all, rest)) => numbers(v@.skip(j as int), left as nat) matches Some(
                    (more, end),
                ) && all == crate::lists::texts(out@) + more && end == rest,
                None => numbers(v@.skip(j as int), left as nat) is None,
            },
        decreases left,
    {
        let ghost seen = crate::lists::texts(out@);
        match read_number(v, j) {
            Some((n, next)) => {
                proof {
                    if let Some((more, end)) = numbers(v@.skip(next as int), (left - 1) as nat) {
                        crate::lists::lemma_assoc(seen, seq![n@], more);
                    }
                }
                out.push(n);
                j = next;
                assert(crate::lists::texts(out@) =~= seen + seq![out@[out@.len() - 1]@]);
            },
            None => {
                return None;
            },
        }
        left = left - 1;
    }
    assert(crate::lists::texts(out@) + Seq::<Seq<char>>::empty() =~= crate::lists::texts(out@));
    Some((out, j))
}

fn read_meaning(c: char) -> (r: Option<(PathCommand, bool)>)
    ensures
        r == meaning(c),
{
    if c == 'M' || c == 'm' {
        Some((PathCommand::Move, c == 'm'))
    } else if c == 'L' || c == 'l' {
        Some((PathCommand::Line, c == 'l'))
    } else if c == 'H' || c == 'h' {
        Some((PathCommand::Horizontal, c == 'h'))
    } else if c == 'V' || c == 'v' {
        Some((PathCommand::Vertical, c == 'v'))
    } else if c == 'C' || c == 'c' {
        Some((PathCommand::Cubic, c == 'c'))
    } else if c == 'Q' || c == 'q' {
        Some((PathCommand::Quadratic, c == 'q'))
    } else if c == 'Z' || c == 'z' {
        Some((PathCommand::Close, c == 'z'))
    } else {
        None
    }
}

fn repeat(last: Option<(PathCommand, bool)>) -> (r: Option<(PathCommand, bool)>)
    ensures
        r == repeated(last),
{
    match last {
        Some((PathCommand::Move, relative)) => Some((PathCommand::Line, relative)),
        Some((PathCommand::Close, _)) => None,
        _ => last,
    }
}

/// Reads path data into steps.
fn read_steps(d: &str) -> (r: Option<Vec<PathStep>>)
    ensures
        match r {
            Some(v) => steps(d@, None) == Some(step_views(v@)),
            None => steps(d@, None) is None,
        },
{
    let v = to_chars(d);
    let mut out: Vec<PathStep> = Vec::new();
    let mut i: usize = 0;
    let mut last: Option<(PathCommand, bool)> = None;
    assert(step_views(out@) =~= Seq::empty());
    assert(v@.skip(0) == d@);
    proof {
        if let Some(all) = steps(d@, None) {
            assert(Seq::<StepView>::empty() + all == all);
        }
    }
    loop
        invariant
            i <= v@.len(),
            match steps(d@, None) {
                Some(all) => steps(v@.skip(i as int), last) matches Some(more) && all == step_views(
                    out@,
                ) + more,
                None => steps(v@.skip(i as int), last) is None,
            },
        decreases v@.len() - i,
    {
        let ghost seen = step_views(out@);
        let a: usize = skip_separators(&v, i);
        let ghost t = v@.skip(a as int);
        if a >= v.len() {
            assert(seen + Seq::<StepView>::empty() == seen);
            return Some(out);
        }
        let c = v[a];
        let letter = ('A' <= c && c <= 'Z') || ('a' <= c && c <= 'z');
        let next = if letter {
            read_meaning(c)
        } else {
            repeat(last)
        };
        let b: usize = if letter {
            a + 1
        } else {
            a
        };
        assert(t.skip(b - a) == v@.skip(b as int));
        assert(next_command(t, last) == (next, v@.skip(b as int)));
        let (command, relative) = match next {
            Some(n) => n,
            None => {
                return None;
            },
        };
        let (ns, j) = match read_numbers(&v, b, command.count()) {
            Some(n) => n,
            None => {
                return None;
            },
        };
        let step = PathStep { command, relative, numbers: ns };
        proof {
            lemma_numbers(v@.skip(b as int), command.arity());
            if let Some(more) = steps(v@.skip(j as int), next) {
                crate::lists::lemma_assoc(seen, seq![step@], more);
            }
        }
        out.push(step);
        assert(step_views(out@) =~= seen + seq![step@]);
        i = j;
        last = next;
    }
}

/// An icon outline: the steps of its path over a square view box.
#[derive(Debug, Clone, PartialEq, Eq)]
pub struct IconPath {
    steps: Vec<PathStep>,
    viewbox: FloatBits,
}

/// A point of a contour.
#[derive(Debug, Clone, Copy, PartialEq, Eq, Structural)]
pub enum Vertex {
    /// The point where every path begins, at zero.
    Origin,
    /// Where the step of this number ends.
    End(usize),
    /// A point of the curve of this step: the second number, of [`BEZIER_STEPS`], tells how far
    /// along.
    Along(usize, u32),
}

/// The bits denote a finite value above zero.
pub open spec fn is_positive(bits: FloatBits) -> bool {
    0 < bits.0 < 0x7F80_0000
}

/// Reads path data over a square view box.
///
/// The commands are `M L H V C Q Z` and their relative forms in lower case. Returns `None` on an
/// unsupported command, a malformed number, or a view box that is not positive.
pub fn parse_path(d: &str, viewbox: FloatBits) -> (r: Option<IconPath>)
    ensures
        match r {
            Some(p) => is_positive(viewbox) && steps(d@, None) == Some(p@) && p.box_bits() == viewbox,
            None => !is_positive(viewbox) || steps(d@, None) is None,
        },
{
    if !(0 < viewbox.0 && viewbox.0 < 0x7F80_0000) {
        return None;
    }
    match read_steps(d) {
        Some(steps) => Some(IconPath { steps, viewbox }),
        None => None,
    }
}

/// A pen that draws contours: those that are done, the one that is being drawn, and the point
/// where it began.
pub struct Pen {
    /// The contours that are done.
    pub done: Seq<Seq<Vertex>>,
    /// The contour that is being drawn.
    pub open: Seq<Vertex>,
    /// Where the last move went.
    pub start: Vertex,
}

/// The points of the curve of a step.
pub open spec fn curve(step: nat) -> Seq<Vertex> {
    Seq::new(
        BEZIER_STEPS as nat,
        |k: int| Vertex::Along(step as usize, (k + 1) as u32),
    )
}

impl Pen {
    /// Nothing has been drawn.
    pub open spec fn new() -> Pen {
        Pen { done: Seq::empty(), open: Seq::empty(), start: Vertex::Origin }
    }

    /// The contours, with the open one if it has a line.
    pub open spec fn finished(self) -> Seq<Seq<Vertex>> {
        if self.open.len() >= 2 {
            self.done.push(self.open)
        } else {
            self.done
        }
    }

    /// The pen after the step of number `n`.
    pub open spec fn after(self, n: nat, command: PathCommand) -> Pen {
        let end = Vertex::End(n as usize);
        match command {
            PathCommand::Move => Pen { done: self.finished(), open: seq![end], start: end },
            PathCommand::Line | PathCommand::Horizontal | PathCommand::Vertical => Pen {
                open: self.open.push(end),
                ..self
            },
            PathCommand::Cubic | PathCommand::Quadratic => Pen { open: self.open + curve(n), ..self },
            PathCommand::Close => if self.open.len() > 0 {
                Pen {
                    done: self.done.push(self.open.push(self.start)),
                    open: Seq::empty(),
                    ..self
                }
            } else {
                self
            },
        }
    }
}

/// The pen after all steps.
pub open spec fn drawn(s: Seq<StepView>) -> Pen
    decreases s.len(),
{
    if s.len() == 0 {
        Pen::new()
    } else {
        drawn(s.drop_last()).after((s.len() - 1) as nat, s.last().command)
    }
}

/// Every contour of a path has a line to draw.
pub proof fn law_contours_are_drawable(s: Seq<StepView>, i: int)
    requires
        0 <= i < drawn(s).finished().len(),
    ensures
        drawn(s).finished()[i].len() >= 2,
    decreases s.len(),
{
    if i < drawn(s).done.len() {
        let before = drawn(s.drop_last());
        let command = s.last().command;
        if command is Move || i < before.done.len() {
            law_contours_are_drawable(s.drop_last(), i);
        }
    }
}

/// Whether a command draws a straight line to its end.
pub open spec fn is_line(c: PathCommand) -> bool {
    c is Line || c is Horizontal || c is Vertical
}

/// Whether a command draws a curve to its end.
pub open spec fn is_curve(c: PathCommand) -> bool {
    c is Cubic || c is Quadratic
}

/// The last point of a step: its end, which for a curve is the last of the points along it.
pub open spec fn last_point(s: Seq<StepView>, n: int) -> Vertex {
    if is_curve(s[n].command) {
        Vertex::Along(n as usize, BEZIER_STEPS)
    } else {
        Vertex::End(n as usize)
    }
}

/// Whether the pen is down when step `n` begins: the step before it did not close the contour.
pub open spec fn is_down(s: Seq<StepView>, n: int) -> bool {
    n > 0 && !(s[n - 1].command is Close)
}

/// Whether the line from `u` to `v` is part of a step: a straight line from where the step before
/// it ended, or a piece of a curve.
pub open spec fn joins(s: Seq<StepView>, u: Vertex, v: Vertex) -> bool {
    match v {
        Vertex::Origin => false,
        Vertex::End(n) => {
            &&& n < s.len()
            &&& is_line(s[n as int].command)
            &&& is_down(s, n as int)
            &&& u == last_point(s, n - 1)
        },
        Vertex::Along(n, k) => {
            &&& n < s.len()
            &&& is_curve(s[n as int].command)
            &&& 1 <= k <= BEZIER_STEPS
            &&& if k > 1 {
                u == Vertex::Along(n, (k - 1) as u32)
            } else {
                is_down(s, n as int) && u == last_point(s, n - 1)
            }
        },
    }
}

/// Whether `v` is where a contour that goes on at step `n` began: the end of the last move, or the
/// origin before any.
pub open spec fn began_at(s: Seq<StepView>, n: int, v: Vertex) -> bool {
    match v {
        Vertex::Origin => forall|m: int| 0 <= m < n ==> !((#[trigger] s[m]).command is Move),
        Vertex::End(e) => {
            &&& e < n
            &&& s[e as int].command is Move
            &&& forall|m: int| e < m < n ==> !((#[trigger] s[m]).command is Move)
        },
        Vertex::Along(_, _) => false,
    }
}

/// Whether step `n` closes a contour with the line from `u` to `v`.
pub open spec fn closes_at(s: Seq<StepView>, n: int, u: Vertex, v: Vertex) -> bool {
    &&& 0 <= n < s.len()
    &&& s[n].command is Close
    &&& is_down(s, n)
    &&& u == last_point(s, n - 1)
    &&& began_at(s, n, v)
}

/// The number of the step that a point belongs to, or -1.
spec fn step_of(v: Vertex) -> int {
    match v {
        Vertex::Origin => -1,
        Vertex::End(n) => n as int,
        Vertex::Along(n, _) => n as int,
    }
}

/// Whether every line of a contour is part of a step, but for the last if the contour is closed.
spec fn contour_fits(s: Seq<StepView>, c: Seq<Vertex>, closed: bool) -> bool {
    &&& forall|j: int| 0 <= j < c.len() ==> -1 <= step_of(#[trigger] c[j]) < s.len()
    &&& forall|j: int|
        1 <= j < c.len() ==> joins(s, c[j - 1], #[trigger] c[j]) || (closed && j == c.len() - 1
            && exists|n: int| #[trigger] closes_at(s, n, c[j - 1], c[j]))
}

/// What holds of the pen after some steps.
spec fn pen_fits(s: Seq<StepView>, p: Pen) -> bool {
    &&& began_at(s, s.len() as int, p.start)
    &&& forall|c: int| 0 <= c < p.done.len() ==> contour_fits(s, #[trigger] p.done[c], true)
    &&& contour_fits(s, p.open, false)
    &&& if is_down(s, s.len() as int) {
        p.open.len() > 0 && p.open.last() == last_point(s, s.len() - 1)
    } else {
        p.open.len() == 0
    }
}

proof fn lemma_began_longer(s: Seq<StepView>, x: StepView, n: int, v: Vertex)
    requires
        0 <= n <= s.len(),
        began_at(s, n, v),
    ensures
        began_at(s.push(x), n, v),
{
    let t = s.push(x);
    assert forall|m: int| 0 <= m < n implies #[trigger] t[m] == s[m] by {}
    if let Vertex::End(e) = v {
        assert(t[e as int] == s[e as int]);
    }
}

proof fn lemma_contour_longer(s: Seq<StepView>, x: StepView, c: Seq<Vertex>, closed: bool)
    requires
        contour_fits(s, c, closed),
    ensures
        contour_fits(s.push(x), c, closed),
{
    let t = s.push(x);
    assert forall|m: int| 0 <= m < s.len() implies #[trigger] t[m] == s[m] by {}
    assert forall|j: int| 1 <= j < c.len() implies joins(t, c[j - 1], #[trigger] c[j]) || (closed
        && j == c.len() - 1 && exists|n: int| #[trigger] closes_at(t, n, c[j - 1], c[j])) by {
        if joins(s, c[j - 1], c[j]) {
            match c[j] {
                Vertex::Origin => {},
                Vertex::End(n) => {
                    assert(t[n as int] == s[n as int] && t[n - 1] == s[n - 1]);
                },
                Vertex::Along(n, k) => {
                    assert(t[n as int] == s[n as int]);
                    if k == 1 {
                        assert(t[n - 1] == s[n - 1]);
                    }
                },
            }
        } else {
            let n = choose|n: int| #[trigger] closes_at(s, n, c[j - 1], c[j]);
            lemma_began_longer(s, x, n, c[j]);
            assert(t[n] == s[n] && t[n - 1] == s[n - 1]);
            assert(closes_at(t, n, c[j - 1], c[j]));
        }
    }
}

proof fn lemma_pen_fits(s: Seq<StepView>)
    requires
        s.len() <= usize::MAX,
    ensures
        pen_fits(s, drawn(s)),
    decreases s.len(),
{
    if s.len() > 0 {
        let before = s.drop_last();
        let x = s.last();
        let n = s.len() - 1;
        let p = drawn(before);
        let q = drawn(s);
        lemma_pen_fits(before);
        assert(before.push(x) == s);
        assert forall|m: int| 0 <= m < n implies #[trigger] s[m] == before[m] by {}
        assert(is_down(before, n) == is_down(s, n));
        if n > 0 {
            assert(s[n - 1] == before[n - 1]);
            assert(last_point(before, n - 1) == last_point(s, n - 1));
        }
        assert forall|c: int| 0 <= c < p.done.len() implies contour_fits(
            s,
            #[trigger] p.done[c],
            true,
        ) by {
            lemma_contour_longer(before, x, p.done[c], true);
        }
        lemma_contour_longer(before, x, p.open, false);
        lemma_began_longer(before, x, n, p.start);
        let end = Vertex::End(n as usize);
        if x.command is Move {
            assert(contour_fits(s, p.open, true));
            assert forall|c: int| 0 <= c < q.done.len() implies contour_fits(
                s,
                #[trigger] q.done[c],
                true,
            ) by {
                if c < p.done.len() {
                    assert(q.done[c] == p.done[c]);
                } else {
                    assert(q.done[c] == p.open);
                }
            }
        } else if is_line(x.command) {
            assert forall|j: int| 1 <= j < q.open.len() implies joins(
                s,
                q.open[j - 1],
                #[trigger] q.open[j],
            ) by {
                if j < p.open.len() {
                    assert(q.open[j] == p.open[j] && q.open[j - 1] == p.open[j - 1]);
                } else {
                    assert(q.open[j] == end);
                    assert(q.open[j - 1] == p.open.last());
                }
            }
            assert forall|j: int| 0 <= j < q.open.len() implies -1 <= step_of(#[trigger] q.open[j])
                < s.len() by {
                if j < p.open.len() {
                    assert(q.open[j] == p.open[j]);
                }
            }
        } else if is_curve(x.command) {
            let l = p.open.len();
            assert forall|j: int| 1 <= j < q.open.len() implies joins(
                s,
                q.open[j - 1],
                #[trigger] q.open[j],
            ) by {
                if j < l {
                    assert(q.open[j] == p.open[j] && q.open[j - 1] == p.open[j - 1]);
                } else {
                    assert(q.open[j] == Vertex::Along(n as usize, (j - l + 1) as u32));
                    if j == l {
                        assert(q.open[j - 1] == p.open.last());
                    } else {
                        assert(q.open[j - 1] == Vertex::Along(n as usize, (j - l) as u32));
                    }
                }
            }
            assert forall|j: int| 0 <= j < q.open.len() implies -1 <= step_of(#[trigger] q.open[j])
                < s.len() by {
                if j < l {
                    assert(q.open[j] == p.open[j]);
                }
            }
            assert(q.open.last() == curve(n as nat).last());
        } else {
            if p.open.len() > 0 {
                let c = p.open.push(p.start);
                assert forall|j: int| 1 <= j < c.len() implies joins(s, c[j - 1], #[trigger] c[j])
                    || (j == c.len() - 1 && exists|m: int| #[trigger]
                    closes_at(s, m, c[j - 1], c[j])) by {
                    if j < p.open.len() {
                        assert(c[j] == p.open[j] && c[j - 1] == p.open[j - 1]);
                    } else {
                        assert(c[j - 1] == p.open.last() && c[j] == p.start);
                        assert(closes_at(s, n, c[j - 1], c[j]));
                    }
                }
                assert forall|j: int| 0 <= j < c.len() implies -1 <= step_of(#[trigger] c[j])
                    < s.len() by {
                    if j < p.open.len() {
                        assert(c[j] == p.open[j]);
                    }
                }
                assert(contour_fits(s, c, true));
                assert forall|k: int| 0 <= k < q.done.len() implies contour_fits(
                    s,
                    #[trigger] q.done[k],
                    true,
                ) by {
                    if k < p.done.len() {
                        assert(q.done[k] == p.done[k]);
                    } else {
                        assert(q.done[k] == c);
                    }
                }
            }
        }
    }
}

/// Every line of a contour comes from the path: it is a straight line from where the step before
/// ended, a piece of a curve, or the last line of a contour, back to where it began.
pub proof fn law_contours_follow_the_path(s: Seq<StepView>, c: int, j: int)
    requires
        s.len() <= usize::MAX,
        0 <= c < drawn(s).finished().len(),
        1 <= j < drawn(s).finished()[c].len(),
    ensures
        ({
            let contour = drawn(s).finished()[c];
            ||| joins(s, contour[j - 1], contour[j])
            ||| j == contour.len() - 1 && exists|n: int| #[trigger]
                closes_at(s, n, contour[j - 1], contour[j])
        }),
{
    lemma_pen_fits(s);
    let p = drawn(s);
    let contour = p.finished()[c];
    if c < p.done.len() {
        assert(contour == p.done[c]);
    } else {
        assert(contour == p.open);
    }
    assert(joins(s, contour[j - 1], contour[j]) || (j == contour.len() - 1 && exists|n: int|
        #[trigger] closes_at(s, n, contour[j - 1], contour[j])));
}

/// The finished contours with the one that is being drawn behind them.
spec fn sheets(p: Pen) -> Seq<Seq<Vertex>> {
    p.done.push(p.open)
}

/// Whether `piece` stands in contour `c` from position `at` on.
pub open spec fn stands_at(
    contours: Seq<Seq<Vertex>>,
    piece: Seq<Vertex>,
    c: int,
    at: int,
) -> bool {
    &&& 0 <= c < contours.len()
    &&& 0 <= at
    &&& at + piece.len() <= contours[c].len()
    &&& forall|k: int| 0 <= k < piece.len() ==> contours[c][at + k] == #[trigger] piece[k]
}

proof fn lemma_stays(p: Pen, n: nat, command: PathCommand, piece: Seq<Vertex>, c: int, at: int)
    requires
        piece.len() >= 2,
        stands_at(sheets(p), piece, c, at),
    ensures
        stands_at(sheets(p.after(n, command)), piece, c, at),
{
    let q = p.after(n, command);
    let a = sheets(p)[c];
    if c < p.done.len() {
        assert(sheets(p)[c] == p.done[c]);
        assert(sheets(q)[c] == p.done[c]);
    } else {
        assert(a == p.open);
        let b = sheets(q)[c];
        assert(b.len() >= a.len());
        assert(b.take(a.len() as int) =~= a);
        assert forall|k: int| 0 <= k < piece.len() implies b[at + k] == #[trigger] piece[k] by {
            assert(b.take(a.len() as int)[at + k] == a[at + k]);
        }
    }
}

proof fn lemma_finished(p: Pen, piece: Seq<Vertex>, c: int, at: int)
    requires
        piece.len() >= 2,
        stands_at(sheets(p), piece, c, at),
    ensures
        stands_at(p.finished(), piece, c, at),
{
    if c < p.done.len() {
        assert(sheets(p)[c] == p.done[c]);
        assert(p.finished()[c] == p.done[c]);
    } else {
        assert(sheets(p)[c] == p.open);
        assert(p.finished()[c] == p.open);
    }
}

/// What step `n` draws: the point where the step before it ended, if the pen is down, and the
/// points that the step adds.
pub open spec fn stroke(s: Seq<StepView>, n: int) -> Seq<Vertex> {
    let added = if is_curve(s[n].command) {
        Seq::new(BEZIER_STEPS as nat, |k: int| Vertex::Along(n as usize, (k + 1) as u32))
    } else {
        seq![Vertex::End(n as usize)]
    };
    if is_down(s, n) {
        seq![last_point(s, n - 1)] + added
    } else {
        added
    }
}

/// The points that step `n` adds.
spec fn step_points(s: Seq<StepView>, n: int) -> Seq<Vertex> {
    if is_curve(s[n].command) {
        curve(n as nat)
    } else {
        seq![Vertex::End(n as usize)]
    }
}

#[verifier::spinoff_prover]
proof fn lemma_stroke_now(s: Seq<StepView>) -> (place: (int, int))
    requires
        0 < s.len() <= usize::MAX,
        is_line(s.last().command) || is_curve(s.last().command),
    ensures
        stands_at(sheets(drawn(s)), stroke(s, s.len() - 1), place.0, place.1),
{
    let n = s.len() - 1;
    let before = s.drop_last();
    let p = drawn(before);
    let q = drawn(s);
    lemma_pen_fits(before);
    if n > 0 {
        assert(before[n - 1] == s[n - 1]);
    }
    let added = step_points(s, n);
    assert(q.open =~= p.open + added);
    assert(q.done == p.done);
    assert(sheets(q)[q.done.len() as int] == q.open);
    let piece = stroke(s, n);
    let l = p.open.len() as int;
    if is_down(s, n) {
        assert(piece =~= seq![p.open.last()] + added);
        assert forall|k: int| 0 <= k < piece.len() implies q.open[l - 1 + k]
            == #[trigger] piece[k] by {}
        (q.done.len() as int, l - 1)
    } else {
        assert(piece =~= added);
        assert forall|k: int| 0 <= k < piece.len() implies q.open[0 + k] == #[trigger] piece[k] by {}
        (q.done.len() as int, 0)
    }
}

#[verifier::spinoff_prover]
proof fn lemma_stroke(s: Seq<StepView>, n: int) -> (place: (int, int))
    requires
        s.len() <= usize::MAX,
        0 <= n < s.len(),
        is_line(s[n].command) || is_curve(s[n].command),
        stroke(s, n).len() >= 2,
    ensures
        stands_at(sheets(drawn(s)), stroke(s, n), place.0, place.1),
    decreases s.len(),
{
    let before = s.drop_last();
    let p = drawn(before);
    if n < s.len() - 1 {
        assert(before[n] == s[n]);
        if n > 0 {
            assert(before[n - 1] == s[n - 1]);
        }
        assert(stroke(before, n) == stroke(s, n));
        let (c, at) = lemma_stroke(before, n);
        lemma_stays(p, (s.len() - 1) as nat, s.last().command, stroke(s, n), c, at);
        (c, at)
    } else {
        lemma_stroke_now(s)
    }
}

/// Every line and every curve of the path is drawn: its points stand in order in some contour,
/// behind the point where the step before it ended. A curve has all its points, those along it from
/// the first to the last.
pub proof fn law_every_step_is_drawn(s: Seq<StepView>, n: int)
    requires
        s.len() <= usize::MAX,
        0 <= n < s.len(),
        is_line(s[n].command) && is_down(s, n) || is_curve(s[n].command),
    ensures
        exists|c: int, at: int| stands_at(drawn(s).finished(), stroke(s, n), c, at),
{
    let (c, at) = lemma_stroke(s, n);
    lemma_finished(drawn(s), stroke(s, n), c, at);
}

proof fn lemma_no_stray(s: Seq<StepView>, n: int, c: int, j: int)
    requires
        s.len() <= usize::MAX,
        0 <= n < s.len(),
        is_curve(s[n].command),
        0 <= c < sheets(drawn(s)).len(),
        0 <= j < sheets(drawn(s))[c].len(),
    ensures
        sheets(drawn(s))[c][j] != Vertex::End(n as usize),
        drawn(s).start != Vertex::End(n as usize),
    decreases s.len(),
{
    let before = s.drop_last();
    let p = drawn(before);
    let q = drawn(s);
    lemma_pen_fits(before);
    lemma_pen_fits(s);
    let l = s.len() - 1;
    let a = sheets(q)[c];
    let v = a[j];
    if c < p.done.len() {
        assert(sheets(p)[c] == p.done[c]);
        assert(a == p.done[c]);
        if n < l {
            assert(before[n] == s[n]);
            lemma_no_stray(before, n, c, j);
        } else {
            assert(step_of(p.done[c][j]) < before.len());
        }
    } else {
        assert(sheets(p)[p.done.len() as int] == p.open);
        if c == p.done.len() && j < p.open.len() && a.len() >= p.open.len() && a.take(
            p.open.len() as int,
        ) == p.open {
            assert(v == a.take(p.open.len() as int)[j]);
            if n < l {
                assert(before[n] == s[n]);
                lemma_no_stray(before, n, c, j);
            } else {
                assert(step_of(p.open[j]) < before.len());
            }
        } else {
            let end = Vertex::End(l as usize);
            let command = s.last().command;
            if command is Move {
                assert(q.open == seq![end]);
                if c < q.done.len() {
                    assert(a == p.open);
                    assert(a.take(p.open.len() as int) =~= p.open);
                }
                assert(v == end);
            } else if is_line(command) {
                assert(a == p.open.push(end));
                assert(a.take(p.open.len() as int) =~= p.open);
                assert(v == end);
            } else if is_curve(command) {
                assert(a == p.open + curve(l as nat));
                assert(a.take(p.open.len() as int) =~= p.open);
            } else if p.open.len() > 0 {
                if c < q.done.len() {
                    assert(a == p.open.push(p.start));
                    assert(a.take(p.open.len() as int) =~= p.open);
                    assert(v == p.start);
                    assert(is_down(before, l));
                } else {
                    assert(a == Seq::<Vertex>::empty());
                }
            } else {
                assert(a == Seq::<Vertex>::empty());
            }
        }
    }
    assert(s[n].command is Cubic || s[n].command is Quadratic);
    assert(began_at(s, s.len() as int, q.start));
    assert(began_at(before, before.len() as int, p.start));
    if let Vertex::End(e) = p.start {
        assert(before[e as int] == s[e as int]);
    }
}

/// A curve is not drawn as a line is: none of its points is the bare end of its step.
pub proof fn law_curves_are_not_lines(s: Seq<StepView>, n: int, c: int, j: int)
    requires
        s.len() <= usize::MAX,
        0 <= n < s.len(),
        is_curve(s[n].command),
        0 <= c < drawn(s).finished().len(),
        0 <= j < drawn(s).finished()[c].len(),
    ensures
        drawn(s).finished()[c][j] != Vertex::End(n as usize),
{
    let p = drawn(s);
    if c < p.done.len() {
        assert(sheets(p)[c] == p.done[c]);
    } else {
        assert(sheets(p)[c] == p.open);
    }
    lemma_no_stray(s, n, c, j);
}

/// The order of points along a path.
spec fn key(v: Vertex) -> int {
    match v {
        Vertex::Origin => -1,
        Vertex::End(n) => n * 17 + 16,
        Vertex::Along(n, k) => n * 17 + k,
    }
}

/// Points along a curve lie behind the points before them on their contour.
proof fn lemma_forward(s: Seq<StepView>, c: Seq<Vertex>, closed: bool, j: int, k: int)
    requires
        contour_fits(s, c, closed),
        s.len() <= usize::MAX,
        0 <= j < k < c.len(),
        k < c.len() - 1 || c[k] is Along,
    ensures
        key(c[j]) < key(c[k]),
    decreases k - j,
{
    let v = c[k];
    let u = c[k - 1];
    assert(joins(s, u, v)) by {
        assert(joins(s, c[k - 1], c[k]) || (closed && k == c.len() - 1 && exists|n: int| #[trigger]
            closes_at(s, n, c[k - 1], c[k])));
    }
    assert(key(u) < key(v));
    if j < k - 1 {
        lemma_forward(s, c, closed, j, k - 1);
    }
}

/// Points along a curve belong to a later step than all points of earlier contours.
proof fn lemma_later_contour(s: Seq<StepView>, c: int, j: int, d: int, k: int)
    requires
        s.len() <= usize::MAX,
        0 <= c < d < sheets(drawn(s)).len(),
        0 <= j < sheets(drawn(s))[c].len(),
        0 <= k < sheets(drawn(s))[d].len(),
        sheets(drawn(s))[d][k] is Along,
    ensures
        step_of(sheets(drawn(s))[c][j]) < step_of(sheets(drawn(s))[d][k]),
    decreases s.len(),
{
    let before = s.drop_last();
    let p = drawn(before);
    let q = drawn(s);
    let l = s.len() - 1;
    lemma_pen_fits(before);
    let command = s.last().command;
    assert(d <= q.done.len());
    if d < q.done.len() {
        assert(sheets(q)[d] == q.done[d]);
    } else {
        assert(sheets(q)[d] == q.open);
    }
    assert(sheets(q)[c] == q.done[c]);
    assert(sheets(p)[p.done.len() as int] == p.open);
    if d < p.done.len() {
        assert(sheets(p)[d] == p.done[d] && sheets(p)[c] == p.done[c]);
        assert(q.done[d] == p.done[d] && q.done[c] == p.done[c]);
        lemma_later_contour(before, c, j, d, k);
    } else if command is Move {
        if d == p.done.len() && d < q.done.len() {
            assert(q.done[d] == p.open);
            assert(sheets(p)[c] == p.done[c] && q.done[c] == p.done[c]);
            lemma_later_contour(before, c, j, d, k);
        }
    } else if is_line(command) {
        assert(sheets(p)[c] == p.done[c] && q.done[c] == p.done[c]);
        assert(k < p.open.len());
        assert(q.open[k] == p.open[k]);
        lemma_later_contour(before, c, j, d, k);
    } else if is_curve(command) {
        assert(sheets(p)[c] == p.done[c] && q.done[c] == p.done[c]);
        if k < p.open.len() {
            assert(q.open[k] == p.open[k]);
            lemma_later_contour(before, c, j, d, k);
        } else {
            assert(q.open[k] == curve(l as nat)[k - p.open.len()]);
            assert(step_of(p.done[c][j]) < before.len());
        }
    } else {
        if p.open.len() > 0 {
            assert(d == p.done.len());
            assert(q.done[d] == p.open.push(p.start));
            assert(sheets(p)[c] == p.done[c] && q.done[c] == p.done[c]);
            assert(k < p.open.len());
            assert(q.done[d][k] == p.open[k]);
            lemma_later_contour(before, c, j, d, k);
        }
    }
}

/// Every point along a curve is drawn in one place only.
pub proof fn law_curve_points_are_drawn_once(s: Seq<StepView>, c: int, j: int, d: int, k: int)
    requires
        s.len() <= usize::MAX,
        0 <= c < drawn(s).finished().len(),
        0 <= j < drawn(s).finished()[c].len(),
        0 <= d < drawn(s).finished().len(),
        0 <= k < drawn(s).finished()[d].len(),
        drawn(s).finished()[c][j] is Along,
        drawn(s).finished()[c][j] == drawn(s).finished()[d][k],
    ensures
        c == d,
        j == k,
{
    let p = drawn(s);
    lemma_pen_fits(s);
    assert(sheets(p)[p.done.len() as int] == p.open);
    assert(sheets(p)[c] == p.finished()[c] && sheets(p)[d] == p.finished()[d]);
    if c < d {
        lemma_later_contour(s, c, j, d, k);
    } else if d < c {
        lemma_later_contour(s, d, k, c, j);
    } else {
        let closed = c < p.done.len();
        if j < k {
            lemma_forward(s, p.finished()[c], closed, j, k);
        } else if k < j {
            lemma_forward(s, p.finished()[c], closed, k, j);
        }
    }
}

/// Closing draws the line from where the step before ended back to where the contour began, and
/// ends the contour there.
pub proof fn law_closing_ends_the_contour(s: Seq<StepView>, n: int)
    requires
        s.len() <= usize::MAX,
        0 <= n < s.len(),
        s[n].command is Close,
        is_down(s, n),
    ensures
        exists|c: int|
            {
                &&& 0 <= c < drawn(s).finished().len()
                &&& drawn(s).finished()[c].len() >= 2
                &&& closes_at(
                    s,
                    n,
                    (#[trigger] drawn(s).finished()[c])[drawn(s).finished()[c].len() - 2],
                    drawn(s).finished()[c].last(),
                )
            },
{
    let c = lemma_closing(s, n);
    assert(drawn(s).finished()[c] == drawn(s).done[c]);
}

proof fn lemma_closing(s: Seq<StepView>, n: int) -> (c: int)
    requires
        s.len() <= usize::MAX,
        0 <= n < s.len(),
        s[n].command is Close,
        is_down(s, n),
    ensures
        0 <= c < drawn(s).done.len(),
        drawn(s).done[c].len() >= 2,
        closes_at(s, n, drawn(s).done[c][drawn(s).done[c].len() - 2], drawn(s).done[c].last()),
    decreases s.len(),
{
    let before = s.drop_last();
    let p = drawn(before);
    assert(before.push(s.last()) == s);
    if n < s.len() - 1 {
        assert(before[n] == s[n] && before[n - 1] == s[n - 1]);
        let c = lemma_closing(before, n);
        let contour = p.done[c];
        assert(drawn(s).done[c] == contour);
        lemma_began_longer(before, s.last(), n, contour.last());
        c
    } else {
        lemma_pen_fits(before);
        assert(before[n - 1] == s[n - 1]);
        let contour = p.open.push(p.start);
        assert(drawn(s).done[p.done.len() as int] == contour);
        lemma_began_longer(before, s.last(), n, p.start);
        p.done.len() as int
    }
}

/// The contents of a list of contours.
pub open spec fn contour_views(v: Seq<Vec<Vertex>>) -> Seq<Seq<Vertex>> {
    v.map_values(|c: Vec<Vertex>| c@)
}

impl View for IconPath {
    type V = Seq<StepView>;

    closed spec fn view(&self) -> Seq<StepView> {
        step_views(self.steps@)
    }
}

impl IconPath {
    /// The bits of the side of the view box.
    pub closed spec fn box_bits(&self) -> FloatBits {
        self.viewbox
    }

    /// The steps of the path.
    pub fn steps(&self) -> (r: &Vec<PathStep>)
        ensures
            step_views(r@) == self@,
    {
        &self.steps
    }

    /// The side of the square view box that the numbers are expressed in.
    pub fn viewbox(&self) -> (r: FloatBits)
        ensures
            r == self.box_bits(),
    {
        self.viewbox
    }

    /// The contours, each a closed polyline.
    ///
    /// A move ends the contour before it, which counts if it has a line. A close adds the point
    /// where the contour began.
    pub fn contours(&self) -> (r: Vec<Vec<Vertex>>)
        ensures
            contour_views(r@) == drawn(self@).finished(),
    {
        let mut done: Vec<Vec<Vertex>> = Vec::new();
        let mut open: Vec<Vertex> = Vec::new();
        let mut start = Vertex::Origin;
        let len: usize = self.steps.len();
        let mut i: usize = 0;
        assert(contour_views(done@) =~= Seq::empty());
        while i < len
            invariant
                i <= len,
                len == self.steps@.len(),
                drawn(self@.take(i as int)) == (Pen {
                    done: contour_views(done@),
                    open: open@,
                    start,
                }),
            decreases len - i,
        {
            let ghost pen = drawn(self@.take(i as int));
            assert(self@.take(i + 1).drop_last() == self@.take(i as int));
            let command = self.steps[i].command;
            assert(self@[i as int].command == command);
            match command {
                PathCommand::Move => {
                    if open.len() >= 2 {
                        done.push(open);
                        assert(contour_views(done@) =~= pen.done.push(pen.open));
                    }
                    let mut fresh: Vec<Vertex> = Vec::new();
                    fresh.push(Vertex::End(i));
                    open = fresh;
                    assert(open@ =~= seq![Vertex::End(i)]);
                    start = Vertex::End(i);
                },
                PathCommand::Line | PathCommand::Horizontal | PathCommand::Vertical => {
                    open.push(Vertex::End(i));
                },
                PathCommand::Cubic | PathCommand::Quadratic => {
                    push_curve(&mut open, i);
                },
                PathCommand::Close => {
                    if open.len() > 0 {
                        open.push(start);
                        done.push(open);
                        assert(contour_views(done@) =~= pen.done.push(pen.open.push(pen.start)));
                        open = Vec::new();
                        assert(open@ =~= Seq::empty());
                    }
                },
            }
            i = i + 1;
        }
        assert(self@.take(len as int) == self@);
        if open.len() >= 2 {
            let ghost pen = drawn(self@);
            done.push(open);
            assert(contour_views(done@) =~= pen.done.push(pen.open));
        }
        done
    }

    /// `true` if the path has no drawable contour.
    pub fn is_empty(&self) -> (r: bool)
        ensures
            r == forall|i: int|
                0 <= i < drawn(self@).finished().len() ==> (#[trigger] drawn(
                    self@,
                ).finished()[i]).len() < 2,
    {
        let v = self.contours();
        let ghost all = drawn(self@).finished();
        let len: usize = v.len();
        let mut i: usize = 0;
        while i < len
            invariant
                i <= len,
                len == v@.len(),
                contour_views(v@) == all,
                all == drawn(self@).finished(),
                forall|k: int| 0 <= k < i ==> (#[trigger] all[k]).len() < 2,
            decreases len - i,
        {
            assert(all[i as int] == v@[i as int]@);
            if v[i].len() >= 2 {
                return false;
            }
            i = i + 1;
        }
        true
    }
}

/// Appends the points of the curve of a step.
fn push_curve(open: &mut Vec<Vertex>, step: usize)
    ensures
        final(open)@ == old(open)@ + curve(step as nat),
{
    let ghost start = open@;
    let mut k: u32 = 0;
    while k < BEZIER_STEPS
        invariant
            k <= BEZIER_STEPS,
            open@ == start + curve(step as nat).take(k as int),
        decreases BEZIER_STEPS - k,
    {
        k = k + 1;
        open.push(Vertex::Along(step, k));
        assert(start + curve(step as nat).take(k as int) =~= (start + curve(step as nat).take(
            k - 1,
        )).push(Vertex::Along(step, k)));
    }
    assert(curve(step as nat).take(BEZIER_STEPS as int) == curve(step as nat));
}

/// The edges of a closed polyline: from each point to the next, and from the last to the first.
pub open spec fn ring(c: Seq<Vertex>) -> Seq<(Vertex, Vertex)> {
    if c.len() < 2 {
        Seq::empty()
    } else {
        Seq::new(
            c.len(),
            |i: int|
                (
                    c[i],
                    c[if i + 1 < c.len() {
                        i + 1
                    } else {
                        0
                    }],
                ),
        )
    }
}

/// The edges of all contours.
pub open spec fn all_edges(v: Seq<Seq<Vertex>>) -> Seq<(Vertex, Vertex)>
    decreases v.len(),
{
    if v.len() == 0 {
        Seq::empty()
    } else {
        all_edges(v.drop_last()) + ring(v.last())
    }
}

/// The edges of the drawable contours, in order.
pub fn edges(contours: &Vec<Vec<Vertex>>) -> (r: Vec<(Vertex, Vertex)>)
    ensures
        r@ == all_edges(contour_views(contours@)),
{
    let mut out: Vec<(Vertex, Vertex)> = Vec::new();
    let len: usize = contours.len();
    let ghost all = contour_views(contours@);
    let mut i: usize = 0;
    while i < len
        invariant
            i <= len,
            len == contours@.len(),
            all == contour_views(contours@),
            out@ == all_edges(all.take(i as int)),
        decreases len - i,
    {
        let ghost before = out@;
        let c = &contours[i];
        let n: usize = c.len();
        assert(all.take(i + 1).drop_last() == all.take(i as int));
        assert(all[i as int] == c@);
        if n >= 2 {
            let mut k: usize = 0;
            while k < n
                invariant
                    k <= n,
                    n == c@.len(),
                    n >= 2,
                    out@ == before + ring(c@).take(k as int),
                decreases n - k,
            {
                let next: usize = if k + 1 < n {
                    k + 1
                } else {
                    0
                };
                out.push((c[k], c[next]));
                k = k + 1;
                assert(before + ring(c@).take(k as int) =~= (before + ring(c@).take(k - 1)).push(
                    ring(c@)[k - 1],
                ));
            }
            assert(ring(c@).take(n as int) == ring(c@));
        }
        i = i + 1;
    }
    assert(all.take(len as int) == all);
    out
}

/// Whether a pixel of the bitmap is filled: an odd number of crossings lie at or left of its
/// centre.
pub open spec fn is_filled<F: Fn(u32, u32) -> usize>(
    crossings: F,
    x: u32,
    y: u32,
    fill: u32,
    pixel: u32,
) -> bool {
    exists|n: usize| #[trigger]
        call_ensures(crossings, (x, y), n) && pixel == if n % 2 == 1 {
            fill
        } else {
            0
        }
}

/// Fills a `size × size` bitmap by the even-odd rule.
///
/// `crossings(x, y)` counts the crossings of the outline with row `y` that lie at or left of the
/// centre of pixel `x`. Pixels with an odd count are set to `fill`, and all others stay
/// transparent (`0`).
pub fn render<F: Fn(u32, u32) -> usize>(size: u32, fill: u32, crossings: &F) -> (r: Vec<u32>)
    requires
        size * size <= usize::MAX,
        forall|x: u32, y: u32| x < size && y < size ==> call_requires(*crossings, (x, y)),
    ensures
        r@.len() == size * size,
        forall|x: u32, y: u32|
            x < size && y < size ==> is_filled(
                *crossings,
                x,
                y,
                fill,
                #[trigger] r@[y * size + x],
            ),
{
    let mut out: Vec<u32> = Vec::new();
    let mut y: u32 = 0;
    assert(0 * size == 0) by (nonlinear_arith);
    while y < size
        invariant
            y <= size,
            size * size <= usize::MAX,
            out@.len() == y * size,
            forall|x: u32, y: u32| x < size && y < size ==> call_requires(*crossings, (x, y)),
            forall|a: u32, b: u32|
                a < size && b < y ==> is_filled(
                    *crossings,
                    a,
                    b,
                    fill,
                    #[trigger] out@[b * size + a],
                ),
        decreases size - y,
    {
        let mut x: u32 = 0;
        while x < size
            invariant
                x <= size,
                y < size,
                size * size <= usize::MAX,
                out@.len() == y * size + x,
                forall|x: u32, y: u32| x < size && y < size ==> call_requires(*crossings, (x, y)),
                forall|a: u32, b: u32|
                    a < size && (b < y || (b == y && a < x)) ==> is_filled(
                        *crossings,
                        a,
                        b,
                        fill,
                        #[trigger] out@[b * size + a],
                    ),
            decreases size - x,
        {
            let ghost before = out@;
            let n: usize = crossings(x, y);
            let pixel: u32 = if n % 2 == 1 {
                fill
            } else {
                0
            };
            assert(is_filled(*crossings, x, y, fill, pixel));
            out.push(pixel);
            x = x + 1;
            proof {
                assert forall|a: u32, b: u32|
                    a < size && (b < y || (b == y && a < x)) implies is_filled(
                    *crossings,
                    a,
                    b,
                    fill,
                    #[trigger] out@[b * size + a],
                ) by {
                    if b < y {
                        assert(0 <= b * size + a < y * size) by (nonlinear_arith)
                            requires
                                a < size,
                                b < y,
                        ;
                    } else {
                        assert(0 <= y * size) by (nonlinear_arith);
                    }
                    if b * size + a < before.len() {
                        assert(out@[b * size + a] == before[b * size + a]);
                    }
                }
            }
        }
        assert((y + 1) * size == y * size + size) by (nonlinear_arith);
        y = y + 1;
    }
    out
}

/// Stroke weight of a brand icon.
#[derive(Debug, Clone, Copy, PartialEq, Eq, Structural)]
pub enum IconWeight {
    /// Standard weight.
    Regular,
    /// Heavier weight, for emphasis and small sizes.
    Bold,
}

/// A named brand icon with regular and bold path data over a square view box.
#[derive(Debug, Clone, Copy)]
pub struct IconDef {
    /// Stable icon name (lookup key).
    pub name: &'static str,
    /// Side of the square view box the path data is authored in.
    pub viewbox: FloatBits,
    /// Regular-weight path data.
    pub regular: &'static str,
    /// Bold-weight path data.
    pub bold: &'static str,
}

impl IconDef {
    /// The path data of a weight.
    pub open spec fn data(&self, weight: IconWeight) -> Seq<char> {
        match weight {
            IconWeight::Regular => self.regular@,
            IconWeight::Bold => self.bold@,
        }
    }

    /// The path data for `weight`.
    pub fn path_data(&self, weight: IconWeight) -> (r: &'static str)
        ensures
            r@ == self.data(weight),
    {
        match weight {
            IconWeight::Regular => self.regular,
            IconWeight::Bold => self.bold,
        }
    }

    /// Parses this icon's `weight` variant.
    pub fn path(&self, weight: IconWeight) -> (r: Option<IconPath>)
        ensures
            match r {
                Some(p) => is_positive(self.viewbox) && steps(self.data(weight), None) == Some(p@)
                    && p.box_bits() == self.viewbox,
                None => !is_positive(self.viewbox) || steps(self.data(weight), None) is None,
            },
    {
        parse_path(self.path_data(weight), self.viewbox)
    }
}

/// Looks up a brand icon by name.
pub fn brand_icon(name: &str) -> (r: Option<IconDef>)
    ensures
        r == (if name@ == "plus"@ {
            Some(brand::plus_icon())
        } else if name@ == "square"@ {
            Some(brand::square_icon())
        } else if name@ == "check"@ {
            Some(brand::check_icon())
        } else {
            None
        }),
{
    let plus = brand::plus();
    if str_eq(plus.name, name) {
        return Some(plus);
    }
    let square = brand::square();
    if str_eq(square.name, name) {
        return Some(square);
    }
    let check = brand::check();
    if str_eq(check.name, name) {
        return Some(check);
    }
    None
}

// ---------------------------------------------------------------------------
// How a path is written
// ---------------------------------------------------------------------------

/// The letter of a command: upper case for absolute numbers, lower case for relative ones.
pub open spec fn letter_of(command: PathCommand, relative: bool) -> char {
    match command {
        PathCommand::Move => if relative { 'm' } else { 'M' },
        PathCommand::Line => if relative { 'l' } else { 'L' },
        PathCommand::Horizontal => if relative { 'h' } else { 'H' },
        PathCommand::Vertical => if relative { 'v' } else { 'V' },
        PathCommand::Cubic => if relative { 'c' } else { 'C' },
        PathCommand::Quadratic => if relative { 'q' } else { 'Q' },
        PathCommand::Close => if relative { 'z' } else { 'Z' },
    }
}

/// How many numbers a step has: a point for a move or a line, one coordinate for a horizontal or
/// vertical line, three points for a cubic curve, two for a quadratic one, and none for a close.
pub open spec fn number_count(command: PathCommand) -> nat {
    if command is Close {
        0
    } else if command is Horizontal || command is Vertical {
        1
    } else if command is Quadratic {
        4
    } else if command is Cubic {
        6
    } else {
        2
    }
}

/// Whether `n` is a sign or nothing, some digits, and a point with digits or nothing.
pub open spec fn spells(
    n: Seq<char>,
    sign: Seq<char>,
    whole: Seq<char>,
    point: bool,
    fraction: Seq<char>,
) -> bool {
    &&& sign == Seq::<char>::empty() || sign == seq!['+'] || sign == seq!['-']
    &&& crate::strings::all_digits(whole)
    &&& crate::strings::all_digits(fraction)
    &&& whole.len() + fraction.len() > 0
    &&& !point ==> fraction.len() == 0
    &&& n == sign + (whole + (if point {
        seq!['.'] + fraction
    } else {
        Seq::empty()
    }))
}

/// Whether `n` is the text of a number.
pub open spec fn is_number_text(n: Seq<char>) -> bool {
    exists|sign: Seq<char>, whole: Seq<char>, point: bool, fraction: Seq<char>|
        spells(n, sign, whole, point, fraction)
}

/// Numbers, each behind a space.
pub open spec fn numbers_text(ns: Seq<Seq<char>>) -> Seq<char>
    decreases ns.len(),
{
    if ns.len() == 0 {
        Seq::empty()
    } else {
        seq![' '] + (ns[0] + numbers_text(ns.drop_first()))
    }
}

/// Whether the letter of a step may be left out behind the step before it: the command is the same,
/// or a line follows a move.
pub open spec fn may_omit(before: StepView, step: StepView) -> bool {
    &&& before.relative == step.relative
    &&& before.command is Move && step.command is Line || before.command == step.command && !(
    step.command is Move) && !(step.command is Close)
}

/// Steps as they are written, those that `implicit` names without their letter.
pub open spec fn path_text(ss: Seq<StepView>, implicit: Seq<bool>) -> Seq<char>
    decreases ss.len(),
{
    if ss.len() == 0 {
        Seq::empty()
    } else {
        let numbers = numbers_text(ss[0].numbers) + path_text(
            ss.drop_first(),
            implicit.drop_first(),
        );
        if implicit[0] {
            numbers
        } else {
            seq![letter_of(ss[0].command, ss[0].relative)] + numbers
        }
    }
}

/// Whether some text cannot go on a number.
spec fn ends_number(s: Seq<char>) -> bool {
    s.len() == 0 || (!crate::strings::is_digit(s[0]) && s[0] != '.')
}

proof fn lemma_run(a: Seq<char>, rest: Seq<char>)
    requires
        crate::strings::all_digits(a),
        rest.len() == 0 || !crate::strings::is_digit(rest[0]),
    ensures
        digit_run(a + rest) == a.len(),
    decreases a.len(),
{
    let s = a + rest;
    if a.len() > 0 {
        let t = a.drop_first();
        assert(crate::strings::is_digit(a[0]));
        assert(s[0] == a[0]);
        assert(s.drop_first() =~= t + rest);
        assert forall|i: int| 0 <= i < t.len() implies crate::strings::is_digit(#[trigger] t[i]) by {
            assert(t[i] == a[i + 1]);
            assert(crate::strings::is_digit(a[i + 1]));
        }
        lemma_run(t, rest);
    } else {
        assert(s =~= rest);
    }
}

/// The parts of a number that is written at the front of some text.
proof fn lemma_parts_of(
    sign: Seq<char>,
    whole: Seq<char>,
    point: bool,
    fraction: Seq<char>,
    rest: Seq<char>,
)
    requires
        sign == Seq::<char>::empty() || sign == seq!['+'] || sign == seq!['-'],
        crate::strings::all_digits(whole),
        crate::strings::all_digits(fraction),
        whole.len() + fraction.len() > 0,
        !point ==> fraction.len() == 0,
        ends_number(rest),
    ensures
        ({
            let tail = if point {
                seq!['.'] + fraction
            } else {
                Seq::empty()
            };
            number_parts(sign + (whole + (tail + rest))) == (sign.len(), whole.len(), tail.len())
        }),
{
    let tail = if point {
        seq!['.'] + fraction
    } else {
        Seq::<char>::empty()
    };
    let after = tail + rest;
    let body = whole + after;
    let s = sign + body;
    assert(after.len() == 0 || !crate::strings::is_digit(after[0]));
    assert(sign.len() == 0 ==> body.len() == 0 || (body[0] != '+' && body[0] != '-')) by {
        if whole.len() > 0 {
            assert(crate::strings::is_digit(whole[0]));
            assert(body[0] == whole[0]);
        } else if point {
            assert(body[0] == '.');
        }
    }
    assert(s.skip(sign.len() as int) =~= body);
    lemma_run(whole, after);
    assert(s.skip((sign.len() + whole.len()) as int) =~= after);
    if point {
        assert(after[0] == '.');
        assert(after.skip(1) =~= fraction + rest);
        lemma_run(fraction, rest);
    } else {
        assert(after =~= rest);
    }
}

/// What a number starts with.
proof fn lemma_number_start(
    n: Seq<char>,
    sign: Seq<char>,
    whole: Seq<char>,
    point: bool,
    fraction: Seq<char>,
)
    requires
        spells(n, sign, whole, point, fraction),
        point || whole.len() > 0,
    ensures
        n.len() > 0,
        !is_separator(n[0]),
        !is_letter(n[0]),
{
    if sign.len() > 0 {
        assert(n[0] == sign[0]);
    } else if whole.len() > 0 {
        assert(crate::strings::is_digit(whole[0]));
        assert(n[0] == whole[0]);
    } else {
        assert(n[0] == '.');
    }
}

proof fn lemma_read_number(n: Seq<char>, rest: Seq<char>)
    requires
        is_number_text(n),
        ends_number(rest),
    ensures
        n.len() > 0,
        !is_separator(n[0]),
        !is_letter(n[0]),
        number(n + rest) == Some((n, rest)),
        number(seq![' '] + (n + rest)) == Some((n, rest)),
{
    let (sign, whole, point, fraction) = choose|
        sign: Seq<char>,
        whole: Seq<char>,
        point: bool,
        fraction: Seq<char>,
    |
        spells(n, sign, whole, point, fraction);
    let tail = if point {
        seq!['.'] + fraction
    } else {
        Seq::<char>::empty()
    };
    let s = n + rest;
    lemma_number_start(n, sign, whole, point, fraction);
    lemma_parts_of(sign, whole, point, fraction, rest);
    assert(n == sign + (whole + tail));
    assert(s =~= sign + (whole + (tail + rest)));
    assert(s[0] == n[0]);
    assert(after_separators(s) == s);
    let spaced = seq![' '] + s;
    assert(spaced[0] == ' ');
    assert(spaced.drop_first() =~= s);
    assert(after_separators(spaced) == after_separators(s));
    assert(n.len() == sign.len() + whole.len() + tail.len());
    assert(s.take(n.len() as int) =~= n);
    assert(s.skip(n.len() as int) =~= rest);
}

proof fn lemma_read_numbers(ns: Seq<Seq<char>>, rest: Seq<char>)
    requires
        forall|i: int| 0 <= i < ns.len() ==> is_number_text(#[trigger] ns[i]),
        ends_number(rest),
    ensures
        numbers(numbers_text(ns) + rest, ns.len()) == Some((ns, rest)),
        ns.len() > 0 ==> numbers(
            ns[0] + (numbers_text(ns.drop_first()) + rest),
            ns.len(),
        ) == Some((ns, rest)),
    decreases ns.len(),
{
    if ns.len() == 0 {
        assert(numbers_text(ns) + rest =~= rest);
        assert(ns =~= Seq::empty());
    } else {
        let more = ns.drop_first();
        let tail = numbers_text(more) + rest;
        assert forall|i: int| 0 <= i < more.len() implies is_number_text(#[trigger] more[i]) by {
            assert(more[i] == ns[i + 1]);
        }
        lemma_read_numbers(more, rest);
        assert(ends_number(tail)) by {
            if more.len() > 0 {
                assert(tail[0] == ' ');
            } else {
                assert(tail =~= rest);
            }
        }
        assert(is_number_text(ns[0]));
        lemma_read_number(ns[0], tail);
        assert(numbers_text(ns) + rest =~= seq![' '] + (ns[0] + tail));
        assert(seq![ns[0]] + more =~= ns);
    }
}

proof fn lemma_path_ends_number(ss: Seq<StepView>, implicit: Seq<bool>)
    requires
        forall|i: int|
            0 <= i < ss.len() ==> (#[trigger] ss[i]).numbers.len() == number_count(ss[i].command),
        ss.len() > 0 && implicit[0] ==> !(ss[0].command is Close),
    ensures
        ends_number(path_text(ss, implicit)),
{
    if ss.len() > 0 {
        let t = path_text(ss, implicit);
        if implicit[0] {
            assert(ss[0].numbers.len() > 0);
            assert(t[0] == ' ');
        } else {
            assert(t[0] == letter_of(ss[0].command, ss[0].relative));
        }
    }
}

/// Whether steps can be written, those that `implicit` names without their letter, behind a step
/// with the command `last`.
spec fn writable(
    ss: Seq<StepView>,
    implicit: Seq<bool>,
    last: Option<(PathCommand, bool)>,
) -> bool {
    &&& implicit.len() == ss.len()
    &&& forall|i: int|
        0 <= i < ss.len() ==> (#[trigger] ss[i]).numbers.len() == number_count(ss[i].command)
    &&& forall|i: int, j: int|
        0 <= i < ss.len() && 0 <= j < ss[i].numbers.len() ==> is_number_text(
            #[trigger] ss[i].numbers[j],
        )
    &&& forall|i: int|
        1 <= i < ss.len() && #[trigger] implicit[i] ==> may_omit(ss[i - 1], ss[i])
    &&& ss.len() > 0 && implicit[0] ==> repeated(last) == Some((ss[0].command, ss[0].relative))
        && !(ss[0].command is Close)
}

#[verifier::spinoff_prover]
proof fn lemma_read_path(
    ss: Seq<StepView>,
    implicit: Seq<bool>,
    last: Option<(PathCommand, bool)>,
)
    requires
        writable(ss, implicit, last),
    ensures
        steps(path_text(ss, implicit), last) == Some(ss),
    decreases ss.len(),
{
    if ss.len() == 0 {
        assert(ss =~= Seq::empty());
    } else {
        let step = ss[0];
        let rest = ss.drop_first();
        let more = implicit.drop_first();
        let command = Some((step.command, step.relative));
        assert(writable(rest, more, command)) by {
            assert forall|i: int|
                0 <= i < rest.len() implies (#[trigger] rest[i]).numbers.len() == number_count(
                rest[i].command,
            ) by {
                assert(rest[i] == ss[i + 1]);
            }
            assert forall|i: int, j: int|
                0 <= i < rest.len() && 0 <= j < rest[i].numbers.len() implies is_number_text(
                #[trigger] rest[i].numbers[j],
            ) by {
                assert(rest[i] == ss[i + 1]);
                assert(is_number_text(ss[i + 1].numbers[j]));
            }
            assert forall|i: int| 1 <= i < rest.len() && #[trigger] more[i] implies may_omit(
                rest[i - 1],
                rest[i],
            ) by {
                assert(implicit[i + 1]);
            }
            if rest.len() > 0 && more[0] {
                assert(implicit[1]);
                assert(may_omit(ss[0], ss[1]));
            }
        }
        lemma_read_path(rest, more, command);
        lemma_path_ends_number(rest, more);
        let tail = path_text(rest, more);
        let ns = step.numbers;
        assert forall|i: int| 0 <= i < ns.len() implies is_number_text(#[trigger] ns[i]) by {
            assert(is_number_text(ss[0].numbers[i]));
        }
        lemma_read_numbers(ns, tail);
        let text = path_text(ss, implicit);
        let body = numbers_text(ns) + tail;
        assert(step.command.arity() == ns.len());
        assert(seq![step] + rest =~= ss);
        assert(StepView { command: step.command, relative: step.relative, numbers: ns } == step);
        if implicit[0] {
            let inner = ns[0] + (numbers_text(ns.drop_first()) + tail);
            assert(body =~= seq![' '] + inner);
            assert(ends_number(numbers_text(ns.drop_first()) + tail)) by {
                if ns.len() > 1 {
                    assert((numbers_text(ns.drop_first()) + tail)[0] == ' ');
                } else {
                    assert(numbers_text(ns.drop_first()) + tail =~= tail);
                }
            }
            assert(is_number_text(ns[0]));
            lemma_read_number(ns[0], numbers_text(ns.drop_first()) + tail);
            assert(body.drop_first() =~= inner);
            assert(inner[0] == ns[0][0]);
            assert(after_separators(text) == inner);
            assert(next_command(inner, last) == (command, inner));
        } else {
            let letter = letter_of(step.command, step.relative);
            assert(text[0] == letter);
            assert(after_separators(text) == text);
            assert(text.skip(1) =~= body);
            assert(next_command(text, last) == (command, body));
        }
    }
}

/// Path data is read as it is written: steps with their letters and numbers, in which a letter is
/// left out where the command goes on, or where lines follow a move, are read as these steps.
pub proof fn law_path_data_is_read_as_written(ss: Seq<StepView>, implicit: Seq<bool>)
    requires
        implicit.len() == ss.len(),
        ss.len() > 0 ==> !implicit[0],
        forall|i: int|
            0 <= i < ss.len() ==> (#[trigger] ss[i]).numbers.len() == number_count(ss[i].command),
        forall|i: int, j: int|
            0 <= i < ss.len() && 0 <= j < ss[i].numbers.len() ==> is_number_text(
                #[trigger] ss[i].numbers[j],
            ),
        forall|i: int|
            1 <= i < ss.len() && #[trigger] implicit[i] ==> may_omit(ss[i - 1], ss[i]),
    ensures
        steps(path_text(ss, implicit), None) == Some(ss),
{
    lemma_read_path(ss, implicit, None);
}

/// The edges of contours are those of the first ones and those of the others, and a single contour
/// has one edge for each of its points: it leads to the point behind it, and from the last point
/// back to the first.
pub proof fn law_edges_go_round_every_contour(
    a: Seq<Seq<Vertex>>,
    b: Seq<Seq<Vertex>>,
    c: Seq<Vertex>,
    k: int,
)
    ensures
        all_edges(a + b) == all_edges(a) + all_edges(b),
        all_edges(seq![c]).len() == (if c.len() == 1 {
            0
        } else {
            c.len()
        }),
        c.len() > 1 && 0 <= k < c.len() ==> all_edges(seq![c])[k] == (
            c[k],
            c[(k + 1) % c.len() as int],
        ),
    decreases b.len(),
{
    reveal_with_fuel(all_edges, 2);
    assert(seq![c].drop_last() =~= Seq::empty());
    assert(all_edges(seq![c]) =~= ring(c));
    if c.len() > 1 && 0 <= k < c.len() {
        if k + 1 < c.len() {
            vstd::arithmetic::div_mod::lemma_small_mod((k + 1) as nat, c.len());
        } else {
            vstd::arithmetic::div_mod::lemma_mod_self_0(c.len() as int);
        }
    }
    if b.len() == 0 {
        assert(a + b =~= a);
        assert(all_edges(a) + all_edges(b) =~= all_edges(a));
    } else {
        law_edges_go_round_every_contour(a, b.drop_last(), c, k);
        assert((a + b).drop_last() =~= a + b.drop_last());
        crate::lists::lemma_assoc(all_edges(a), all_edges(b.drop_last()), ring(b.last()));
    }
}

} // verus!
