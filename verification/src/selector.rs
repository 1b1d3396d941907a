//! The content selector, parsed: `order.customer.name`, `orders[0].id`,
//! `orders[n].id`, `headers['desiredProperty']`. The expression is what an
//! operator writes; the [`Selector`] is what a walk over content goes by, and
//! its [`Reach`] is the declaration of how far a selector must read.
use vstd::prelude::*;

verus! {

broadcast use vstd::string::group_string_axioms;

/// One step of a selector. Four kinds; the brackets are this language's own
/// notation, not `JSONPath`'s.
#[derive(Clone, Debug, PartialEq, Eq)]
pub enum Segment {
    /// A named step: `order`, `customer`.
    Name(String),
    /// An ordinal occurrence: `[0]`, `[3]`.
    Number(usize),
    /// A named key, quoted so it may hold what a name may not: `['x-id']`.
    Key(String),
    /// The streaming wildcard `[n]`: the first occurrence when reading, every
    /// occurrence when writing.
    Any,
}

/// A step as the contracts speak of it: names and keys by their characters.
pub enum Step {
    Name(Seq<char>),
    Number(usize),
    Key(Seq<char>),
    Any,
}

impl View for Segment {
    type V = Step;

    open spec fn view(&self) -> Step {
        match self {
            Segment::Name(name) => Step::Name(name@),
            Segment::Number(index) => Step::Number(*index),
            Segment::Key(key) => Step::Key(key@),
            Segment::Any => Step::Any,
        }
    }
}

/// How far into the Stream a selector must reach before it can be answered.
#[derive(Clone, Copy, Debug, PartialEq, Eq, Structural)]
pub enum Reach {
    /// Names and keys only: resolvable near the beginning of the Stream.
    StreamPrefix,
    /// A wildcard is present: resolvable by scanning forward, still without
    /// materializing.
    StreamScan,
    /// An ordinal is present and no wildcard: an ordinal needs the shape of a
    /// section to count within.
    MaterializedSection,
}

impl Reach {
    /// The name of the declaration: `stream-prefix`, `stream-scan` or
    /// `materialized-section`.
    pub fn to_string(&self) -> (s: String)
        ensures
            s@ == match self {
                Reach::StreamPrefix => "stream-prefix"@,
                Reach::StreamScan => "stream-scan"@,
                Reach::MaterializedSection => "materialized-section"@,
            },
    {
        match self {
            Reach::StreamPrefix => "stream-prefix".to_owned(),
            Reach::StreamScan => "stream-scan".to_owned(),
            Reach::MaterializedSection => "materialized-section".to_owned(),
        }
    }
}

/// Why an expression is not a selector. Positions count characters of the
/// expression.
#[derive(Clone, Copy, Debug, PartialEq, Eq, Structural)]
pub enum SelectorError {
    /// The expression is empty.
    Empty,
    /// The expression starts with a dot.
    StartsWithDot,
    /// A name follows a bracket without its dot.
    NameFollowsBracket,
    /// A name between dots (or at the end) is empty.
    EmptyName,
    /// The name at `from..to` holds `]` or `'`.
    NotAName { from: usize, to: usize },
    /// A `[` has no `]` after it.
    NeverClosed,
    /// The bracket body at `from..to` is not `n`, a quoted key or digits.
    NotABracket { from: usize, to: usize },
}

/// A parsed selector: at least one segment.
#[derive(Debug, PartialEq, Eq)]
pub struct Selector {
    segments: Vec<Segment>,
}

impl View for Selector {
    type V = Seq<Step>;

    closed spec fn view(&self) -> Seq<Step> {
        self.segments@.map_values(|segment: Segment| segment@)
    }
}

/// The value of a run of decimal digits.
pub open spec fn decimal(digits: Seq<char>) -> nat
    decreases digits.len(),
{
    if digits.len() == 0 {
        0
    } else {
        decimal(digits.drop_last()) * 10 + ((digits.last() as int - '0' as int) as nat)
    }
}

pub open spec fn is_digit(c: char) -> bool {
    '0' <= c && c <= '9'
}

pub open spec fn all_digits(digits: Seq<char>) -> bool {
    forall|k: int| 0 <= k < digits.len() ==> is_digit(#[trigger] digits[k])
}

/// The ordinal a bracket body spells: one or more decimal digits, of a value
/// that fits in `usize`.
pub open spec fn ordinal_of(body: Seq<char>) -> Option<usize> {
    if body.len() > 0 && all_digits(body) && decimal(body) <= usize::MAX {
        Some(decimal(body) as usize)
    } else {
        None
    }
}

/// The step a bracket body denotes: `n`, `'key'` or an ordinal.
pub open spec fn bracket_step(body: Seq<char>) -> Option<Step> {
    if body =~= seq!['n'] {
        Some(Step::Any)
    } else if body.len() >= 2 && body[0] == '\'' && body.last() == '\'' {
        let key = body.subrange(1, body.len() - 1);
        if key.contains('\'') {
            None
        } else {
            Some(Step::Key(key))
        }
    } else {
        match ordinal_of(body) {
            Some(index) => Some(Step::Number(index)),
            None => None,
        }
    }
}

/// The first position at or after `i` that holds `]`, or the length.
pub open spec fn bracket_end(s: Seq<char>, i: int) -> int
    decreases s.len() - i,
{
    if i >= s.len() || s[i] == ']' {
        i
    } else {
        bracket_end(s, i + 1)
    }
}

pub proof fn lemma_bracket_end_bounds(s: Seq<char>, i: int)
    ensures
        i <= bracket_end(s, i),
        i <= s.len() ==> bracket_end(s, i) <= s.len(),
        forall|j: int| i <= j < bracket_end(s, i) ==> s[j] != ']',
        0 <= i <= bracket_end(s, i) < s.len() ==> s[bracket_end(s, i)] == ']',
    decreases s.len() - i,
{
    if !(i >= s.len() || s[i] == ']') {
        lemma_bracket_end_bounds(s, i + 1);
    }
}

pub proof fn lemma_name_end_bounds(s: Seq<char>, i: int)
    ensures
        i <= name_end(s, i),
        i <= s.len() ==> name_end(s, i) <= s.len(),
        forall|j: int| i <= j < name_end(s, i) ==> s[j] != '.' && s[j] != '[',
    decreases s.len() - i,
{
    if !(i >= s.len() || s[i] == '.' || s[i] == '[') {
        lemma_name_end_bounds(s, i + 1);
    }
}

/// The first position at or after `i` that holds `.` or `[`, or the length.
pub open spec fn name_end(s: Seq<char>, i: int) -> int
    decreases s.len() - i,
{
    if i >= s.len() || s[i] == '.' || s[i] == '[' {
        i
    } else {
        name_end(s, i + 1)
    }
}

pub open spec fn prepend(step: Step, rest: Result<Seq<Step>, SelectorError>) -> Result<
    Seq<Step>,
    SelectorError,
> {
    match rest {
        Ok(steps) => Ok(seq![step] + steps),
        Err(e) => Err(e),
    }
}

/// The steps of `s` from position `i` on; `started` tells whether a segment
/// came before `i`. Names are joined by `.`; brackets follow a name or another
/// bracket directly; a name after a bracket needs its `.`.
pub open spec fn steps_from(s: Seq<char>, i: int, started: bool) -> Result<
    Seq<Step>,
    SelectorError,
>
    decreases s.len() - i,
{
    if i < 0 || i >= s.len() {
        if started {
            Ok(seq![])
        } else {
            Err(SelectorError::Empty)
        }
    } else if s[i] == '[' {
        let close = bracket_end(s, i + 1);
        if close >= s.len() {
            Err(SelectorError::NeverClosed)
        } else {
            match bracket_step(s.subrange(i + 1, close)) {
                None => Err(SelectorError::NotABracket { from: (i + 1) as usize, to: close as usize }),
                Some(step) => {
                    proof {
                        lemma_bracket_end_bounds(s, i + 1);
                    }
                    prepend(step, steps_from(s, close + 1, true))
                },
            }
        }
    } else if s[i] == '.' && !started {
        Err(SelectorError::StartsWithDot)
    } else if s[i] != '.' && started {
        Err(SelectorError::NameFollowsBracket)
    } else {
        let from = if s[i] == '.' {
            i + 1
        } else {
            i
        };
        let to = name_end(s, from);
        let name = s.subrange(from, to);
        if to <= from {
            Err(SelectorError::EmptyName)
        } else if name.contains(']') || name.contains('\'') {
            Err(SelectorError::NotAName { from: from as usize, to: to as usize })
        } else {
            proof {
                lemma_name_end_bounds(s, from);
            }
            prepend(Step::Name(name), steps_from(s, to, true))
        }
    }
}

/// What parsing `expression` gives: its steps, or why it is refused.
pub open spec fn parsed(expression: Seq<char>) -> Result<Seq<Step>, SelectorError> {
    steps_from(expression, 0, false)
}

/// The declared reach of a list of steps.
pub open spec fn reach_of(steps: Seq<Step>) -> Reach {
    if exists|k: int| 0 <= k < steps.len() && steps[k] is Any {
        Reach::StreamScan
    } else if exists|k: int| 0 <= k < steps.len() && steps[k] is Number {
        Reach::MaterializedSection
    } else {
        Reach::StreamPrefix
    }
}

/// What is refused from the start: an empty expression, one that starts with
/// a dot, and one that opens a bracket it never closes.
pub proof fn lemma_refused_from_the_start(expression: Seq<char>)
    ensures
        expression.len() == 0 ==> parsed(expression) == Err::<Seq<Step>, SelectorError>(
            SelectorError::Empty,
        ),
        expression.len() > 0 && expression[0] == '.' ==> parsed(expression) == Err::<
            Seq<Step>,
            SelectorError,
        >(SelectorError::StartsWithDot),
        expression.len() > 0 && expression[0] == '[' && !expression.contains(']') ==> parsed(
            expression,
        ) == Err::<Seq<Step>, SelectorError>(SelectorError::NeverClosed),
{
    if expression.len() > 0 && expression[0] == '[' && !expression.contains(']') {
        lemma_bracket_end_bounds(expression, 1);
        let close = bracket_end(expression, 1);
        if close < expression.len() {
            assert(expression.contains(expression[close]));
        }
    }
}

/// How far a selector reaches: a wildcard anywhere makes a scan; with no
/// wildcard, any ordinal makes a materialized section, however many ordinals
/// there are and wherever they stand; names and keys alone stay in the prefix.
pub proof fn lemma_reach_declared(steps: Seq<Step>)
    ensures
        (exists|k: int| 0 <= k < steps.len() && #[trigger] steps[k] is Any) ==> reach_of(steps)
            == Reach::StreamScan,
        (forall|k: int| 0 <= k < steps.len() ==> !(#[trigger] steps[k] is Any)) && (exists|k: int|
            0 <= k < steps.len() && #[trigger] steps[k] is Number) ==> reach_of(steps)
            == Reach::MaterializedSection,
        (forall|k: int|
            0 <= k < steps.len() ==> !(#[trigger] steps[k] is Any) && !(steps[k] is Number))
            ==> reach_of(steps) == Reach::StreamPrefix,
{
}

impl Clone for Selector {
    /// A copy, step for step.
    fn clone(&self) -> (copy: Selector)
        ensures
            copy@ == self@,
    {
        proof {
            use_type_invariant(self);
        }
        let mut segments: Vec<Segment> = Vec::new();
        let mut k: usize = 0;
        while k < self.segments.len()
            invariant
                k <= self.segments@.len(),
                segments@.len() == k,
                forall|m: int| 0 <= m < k ==> (#[trigger] segments@[m])@ == self.segments@[m]@,
            decreases self.segments.len() - k,
        {
            let copy = match &self.segments[k] {
                Segment::Name(name) => Segment::Name(name.clone()),
                Segment::Number(index) => Segment::Number(*index),
                Segment::Key(key) => Segment::Key(key.clone()),
                Segment::Any => Segment::Any,
            };
            segments.push(copy);
            k = k + 1;
        }
        let copy = Selector { segments };
        assert(copy@ =~= self@);
        copy
    }
}

/// The steps that a run of segments stands for.
pub open spec fn steps_of(segments: Seq<Segment>) -> Seq<Step> {
    segments.map_values(|segment: Segment| segment@)
}

/// The steps parsed so far, followed by what the rest of the input gives.
pub open spec fn after(done: Seq<Step>, rest: Result<Seq<Step>, SelectorError>) -> Result<
    Seq<Step>,
    SelectorError,
> {
    match rest {
        Ok(steps) => Ok(done + steps),
        Err(e) => Err(e),
    }
}

pub proof fn lemma_decimal_prefix(digits: Seq<char>, m: int)
    requires
        0 <= m <= digits.len(),
    ensures
        decimal(digits.take(m)) <= decimal(digits),
    decreases digits.len(),
{
    if m < digits.len() {
        assert(digits.drop_last().take(m) =~= digits.take(m));
        lemma_decimal_prefix(digits.drop_last(), m);
    } else {
        assert(digits.take(m) =~= digits);
    }
}

/// The decimal digit character for `d`, for `d` in `0..10`.
pub open spec fn digit_char(d: int) -> char {
    seq!['0', '1', '2', '3', '4', '5', '6', '7', '8', '9'][d]
}

/// The decimal digits of `n`, without leading zeros.
pub open spec fn digits_of(n: nat) -> Seq<char>
    decreases n,
{
    if n < 10 {
        seq![digit_char(n as int)]
    } else {
        digits_of(n / 10).push(digit_char((n % 10) as int))
    }
}

/// A step written out: a name after a dot (none before the first step), an
/// ordinal in decimal, a key in quotes, the wildcard as `[n]`.
pub open spec fn rendered_step(step: Step, started: bool) -> Seq<char> {
    match step {
        Step::Name(name) => if started {
            seq!['.'] + name
        } else {
            name
        },
        Step::Number(index) => seq!['['] + digits_of(index as nat) + seq![']'],
        Step::Key(key) => seq!['[', '\''] + key + seq!['\'', ']'],
        Step::Any => seq!['[', 'n', ']'],
    }
}

/// Steps written out one after the other; `started` tells whether a step
/// came before them.
pub open spec fn rendered_from(steps: Seq<Step>, started: bool) -> Seq<char>
    decreases steps.len(),
{
    if steps.len() == 0 {
        seq![]
    } else {
        rendered_step(steps[0], started) + rendered_from(steps.drop_first(), true)
    }
}

/// A list of steps written out as an expression.
pub open spec fn rendered(steps: Seq<Step>) -> Seq<char> {
    rendered_from(steps, false)
}

/// A step that can be written out: a name that is not empty and holds none of
/// `.`, `[`, `]`, `'`; a key that holds neither `'` nor `]`.
pub open spec fn writable_step(step: Step) -> bool {
    match step {
        Step::Name(name) => name.len() > 0 && !name.contains('.') && !name.contains('[')
            && !name.contains(']') && !name.contains('\''),
        Step::Key(key) => !key.contains('\'') && !key.contains(']'),
        _ => true,
    }
}

/// Steps that a selector can be written as: at least one, each writable.
pub open spec fn writable(steps: Seq<Step>) -> bool {
    steps.len() > 0 && forall|k: int| 0 <= k < steps.len() ==> writable_step(#[trigger] steps[k])
}

proof fn lemma_digit_char(d: int)
    requires
        0 <= d < 10,
    ensures
        is_digit(digit_char(d)),
        digit_char(d) as int - '0' as int == d,
{
    let ds = seq!['0', '1', '2', '3', '4', '5', '6', '7', '8', '9'];
    assert(ds[0] == '0' && ds[1] == '1' && ds[2] == '2' && ds[3] == '3' && ds[4] == '4');
    assert(ds[5] == '5' && ds[6] == '6' && ds[7] == '7' && ds[8] == '8' && ds[9] == '9');
}

proof fn lemma_digits_of(n: nat)
    ensures
        digits_of(n).len() > 0,
        all_digits(digits_of(n)),
        decimal(digits_of(n)) == n,
    decreases n,
{
    if n < 10 {
        lemma_digit_char(n as int);
        assert(digits_of(n).drop_last() =~= Seq::<char>::empty());
        assert(decimal(Seq::<char>::empty()) == 0);
        assert(decimal(digits_of(n)) == decimal(digits_of(n).drop_last()) * 10 + (digit_char(
            n as int,
        ) as int - '0' as int));
    } else {
        lemma_digits_of(n / 10);
        lemma_digit_char((n % 10) as int);
        let ds = digits_of(n);
        assert(ds.drop_last() =~= digits_of(n / 10));
        assert(ds.last() == digit_char((n % 10) as int));
        assert(decimal(ds) == decimal(digits_of(n / 10)) * 10 + (n % 10));
        assert forall|k: int| 0 <= k < ds.len() implies is_digit(#[trigger] ds[k]) by {
            if k < ds.len() - 1 {
                assert(ds[k] == digits_of(n / 10)[k]);
            }
        }
    }
}

proof fn lemma_rendered_opens(steps: Seq<Step>)
    requires
        rendered_from(steps, true).len() > 0,
    ensures
        rendered_from(steps, true)[0] == '.' || rendered_from(steps, true)[0] == '[',
{
    let first = rendered_step(steps[0], true);
    assert(rendered_from(steps, true) == first + rendered_from(steps.drop_first(), true));
    match steps[0] {
        Step::Number(index) => {
            lemma_digits_of(index as nat);
        },
        _ => {},
    }
    assert(first.len() > 0);
    assert(rendered_from(steps, true)[0] == first[0]);
}

proof fn lemma_name_end_at(s: Seq<char>, i: int, end: int)
    requires
        0 <= i <= end <= s.len(),
        forall|j: int| i <= j < end ==> s[j] != '.' && s[j] != '[',
        end == s.len() || s[end] == '.' || s[end] == '[',
    ensures
        name_end(s, i) == end,
    decreases end - i,
{
    if i < end {
        lemma_name_end_at(s, i + 1, end);
    }
}

proof fn lemma_bracket_end_at(s: Seq<char>, i: int, end: int)
    requires
        0 <= i <= end < s.len(),
        forall|j: int| i <= j < end ==> s[j] != ']',
        s[end] == ']',
    ensures
        bracket_end(s, i) == end,
    decreases end - i,
{
    if i < end {
        lemma_bracket_end_at(s, i + 1, end);
    }
}

proof fn lemma_unbracketed(body: Seq<char>, inner: Seq<char>)
    requires
        seq!['['] + body + seq![']'] == seq!['['] + inner + seq![']'],
    ensures
        body == inner,
{
    let whole = seq!['['] + body + seq![']'];
    assert(whole.len() == body.len() + 2);
    assert((seq!['['] + inner + seq![']']).len() == inner.len() + 2);
    assert forall|k: int| 0 <= k < body.len() implies body[k] == inner[k] by {
        assert(whole[k + 1] == body[k]);
        assert((seq!['['] + inner + seq![']'])[k + 1] == inner[k]);
    }
    assert(body =~= inner);
}

proof fn lemma_bracket_step_rendered(step: Step, body: Seq<char>)
    requires
        !(step is Name),
        writable_step(step),
        seq!['['] + body + seq![']'] == rendered_step(step, true),
    ensures
        bracket_step(body) == Some(step),
        !body.contains(']'),
{
    match step {
        Step::Number(index) => {
            lemma_unbracketed(body, digits_of(index as nat));
        },
        Step::Key(key) => {
            assert(seq!['[', '\''] + key + seq!['\'', ']'] =~= seq!['['] + (seq!['\''] + key + seq![
                '\'',
            ]) + seq![']']);
            lemma_unbracketed(body, seq!['\''] + key + seq!['\'']);
        },
        _ => {
            assert(seq!['[', 'n', ']'] =~= seq!['['] + seq!['n'] + seq![']']);
            lemma_unbracketed(body, seq!['n']);
        },
    }
    match step {
        Step::Number(index) => {
            lemma_digits_of(index as nat);
            assert(body =~= digits_of(index as nat));
            assert(is_digit(body[0]));
            assert(!(body =~= seq!['n']));
            assert forall|k: int| 0 <= k < body.len() implies body[k] != ']' by {
                assert(is_digit(body[k]));
            }
        },
        Step::Key(key) => {
            assert(body =~= seq!['\''] + key + seq!['\'']);
            assert(body.subrange(1, body.len() - 1) =~= key);
            assert(!(body =~= seq!['n']));
            assert forall|k: int| 0 <= k < body.len() implies body[k] != ']' by {
                if 0 < k < body.len() - 1 {
                    assert(body[k] == key[k - 1]);
                }
            }
        },
        _ => {
            assert(body =~= seq!['n']);
        },
    }
}

proof fn lemma_steps_from_rendered(s: Seq<char>, i: int, steps: Seq<Step>, started: bool)
    requires
        0 <= i <= s.len(),
        s.subrange(i, s.len() as int) == rendered_from(steps, started),
        forall|k: int| 0 <= k < steps.len() ==> writable_step(#[trigger] steps[k]),
        steps.len() > 0 || started,
    ensures
        steps_from(s, i, started) == Ok::<Seq<Step>, SelectorError>(steps),
    decreases steps.len(),
{
    let t = s.subrange(i, s.len() as int);
    if steps.len() == 0 {
        assert(t.len() == 0);
        assert(steps =~= Seq::<Step>::empty());
    } else {
        let step = steps[0];
        let others = steps.drop_first();
        assert(writable_step(step));
        assert forall|k: int| 0 <= k < others.len() implies writable_step(#[trigger] others[k]) by {
            assert(others[k] == steps[k + 1]);
        }
        let head = rendered_step(step, started);
        let tail = rendered_from(others, true);
        assert(t == head + tail);
        assert forall|j: int| 0 <= j < head.len() implies s[i + j] == head[j] by {
            assert(s[i + j] == t[j]);
        }
        assert(s.subrange(i + head.len(), s.len() as int) =~= tail) by {
            assert forall|j: int| 0 <= j < tail.len() implies s[i + head.len() + j] == tail[j] by {
                assert(s[i + head.len() + j] == t[head.len() + j]);
            }
        }
        let next = i + head.len();
        if tail.len() > 0 {
            lemma_rendered_opens(others);
            assert(s[next] == tail[0]);
        }
        match step {
            Step::Name(name) => {
                let from = if started {
                    i + 1
                } else {
                    i
                };
                assert(head =~= (if started {
                    seq!['.'] + name
                } else {
                    name
                }));
                assert forall|j: int| from <= j < next implies s[j] != '.' && s[j] != '[' by {
                    assert(s[j] == head[j - i]);
                    assert(s[j] == name[j - from]);
                    assert(name.contains(name[j - from]));
                }
                assert(s[i] == head[0]);
                if !started {
                    assert(s[i] == name[0]);
                    assert(name.contains(name[0]));
                }
                lemma_name_end_at(s, from, next);
                assert forall|k: int| 0 <= k < name.len() implies s.subrange(from, next)[k]
                    == name[k] by {
                    assert(s[from + k] == head[from + k - i]);
                }
                assert(s.subrange(from, next) =~= name);
                lemma_steps_from_rendered(s, next, others, true);
                assert(seq![Step::Name(name)] + others =~= steps);
                assert(steps_from(s, i, started) == prepend(
                    Step::Name(name),
                    steps_from(s, next, true),
                ));
            },
            _ => {
                let body = head.subrange(1, head.len() - 1);
                assert(head =~= seq!['['] + body + seq![']']) by {
                    assert(head[0] == '[');
                    assert(head[head.len() - 1] == ']');
                }
                assert(head == rendered_step(step, true));
                lemma_bracket_step_rendered(step, body);
                assert(s[next - 1] == head[head.len() - 1]);
                assert(s[i] == head[0]);
                assert forall|j: int| i + 1 <= j < next - 1 implies s[j] != ']' by {
                    assert(s[j] == head[j - i]);
                    assert(s[j] == body[j - i - 1]);
                    assert(body.contains(body[j - i - 1]));
                }
                lemma_bracket_end_at(s, i + 1, next - 1);
                assert(s.subrange(i + 1, next - 1) =~= body);
                lemma_steps_from_rendered(s, next, others, true);
                assert(seq![step] + others =~= steps);
                assert(steps_from(s, i, started) == prepend(step, steps_from(s, next, true)));
            },
        }
    }
}

/// Writing steps out and parsing the text gives the steps back.
pub proof fn lemma_parse_rendered(steps: Seq<Step>)
    requires
        writable(steps),
    ensures
        parsed(rendered(steps)) == Ok::<Seq<Step>, SelectorError>(steps),
{
    let s = rendered(steps);
    assert(s.subrange(0, s.len() as int) =~= s);
    lemma_steps_from_rendered(s, 0, steps, false);
}

proof fn lemma_parsed_steps_writable(s: Seq<char>, i: int, started: bool)
    ensures
        steps_from(s, i, started) matches Ok(steps) ==> (forall|k: int|
            0 <= k < steps.len() ==> writable_step(#[trigger] steps[k])),
        steps_from(s, i, started) matches Ok(steps) ==> (started || steps.len() > 0),
    decreases s.len() - i,
{
    if 0 <= i < s.len() {
        if s[i] == '[' {
            let close = bracket_end(s, i + 1);
            lemma_bracket_end_bounds(s, i + 1);
            if close < s.len() {
                let body = s.subrange(i + 1, close);
                if let Some(step) = bracket_step(body) {
                    lemma_parsed_steps_writable(s, close + 1, true);
                    if step is Key {
                        let key = body.subrange(1, body.len() - 1);
                        assert forall|k: int| 0 <= k < key.len() implies key[k] != ']' by {
                            assert(key[k] == s[i + 2 + k]);
                        }
                    }
                    assert(writable_step(step));
                    if let Ok(rest) = steps_from(s, close + 1, true) {
                        let steps = seq![step] + rest;
                        assert forall|k: int| 0 <= k < steps.len() implies writable_step(
                            #[trigger] steps[k],
                        ) by {
                            if k > 0 {
                                assert(steps[k] == rest[k - 1]);
                            }
                        }
                    }
                }
            }
        } else if !(s[i] == '.' && !started) && !(s[i] != '.' && started) {
            let from = if s[i] == '.' {
                i + 1
            } else {
                i
            };
            let to = name_end(s, from);
            lemma_name_end_bounds(s, from);
            let name = s.subrange(from, to);
            if to > from && !name.contains(']') && !name.contains('\'') {
                lemma_parsed_steps_writable(s, to, true);
                assert forall|k: int| 0 <= k < name.len() implies name[k] != '.' && name[k]
                    != '[' by {
                    assert(name[k] == s[from + k]);
                }
                assert(writable_step(Step::Name(name)));
                if let Ok(rest) = steps_from(s, to, true) {
                    let steps = seq![Step::Name(name)] + rest;
                    assert forall|k: int| 0 <= k < steps.len() implies writable_step(
                        #[trigger] steps[k],
                    ) by {
                        if k > 0 {
                            assert(steps[k] == rest[k - 1]);
                        }
                    }
                }
            }
        }
    }
}

/// A selector that parses, written out again, parses to the same steps.
pub proof fn lemma_parsed_renders_back(expression: Seq<char>)
    requires
        parsed(expression) is Ok,
    ensures
        writable(parsed(expression)->Ok_0),
        parsed(rendered(parsed(expression)->Ok_0)) == parsed(expression),
{
    lemma_parsed_steps_writable(expression, 0, false);
    lemma_parse_rendered(parsed(expression)->Ok_0);
}

fn chars_of(expression: &str) -> (cs: Vec<char>)
    ensures
        cs@ == expression@,
{
    let mut cs: Vec<char> = Vec::new();
    for c in it: expression.chars()
        invariant
            cs@ == it.seq().take(it.index()),
            it.seq() == expression@,
    {
        cs.push(c);
    }
    cs
}

fn scan_bracket_end(cs: &Vec<char>, i: usize) -> (j: usize)
    requires
        i <= cs.len(),
    ensures
        j == bracket_end(cs@, i as int),
        i <= j <= cs.len(),
{
    let mut j = i;
    while j < cs.len() && cs[j] != ']'
        invariant
            i <= j <= cs.len(),
            bracket_end(cs@, i as int) == bracket_end(cs@, j as int),
        decreases cs.len() - j,
    {
        j = j + 1;
    }
    j
}

fn scan_name_end(cs: &Vec<char>, i: usize) -> (j: usize)
    requires
        i <= cs.len(),
    ensures
        j == name_end(cs@, i as int),
        i <= j <= cs.len(),
{
    let mut j = i;
    while j < cs.len() && cs[j] != '.' && cs[j] != '['
        invariant
            i <= j <= cs.len(),
            name_end(cs@, i as int) == name_end(cs@, j as int),
        decreases cs.len() - j,
    {
        j = j + 1;
    }
    j
}

fn holds_char(cs: &Vec<char>, from: usize, to: usize, c: char) -> (found: bool)
    requires
        from <= to <= cs.len(),
    ensures
        found == cs@.subrange(from as int, to as int).contains(c),
{
    let mut k = from;
    while k < to
        invariant
            from <= k <= to <= cs.len(),
            forall|m: int| from <= m < k ==> cs@[m] != c,
        decreases to - k,
    {
        if cs[k] == c {
            assert(cs@.subrange(from as int, to as int)[k - from] == c);
            return true;
        }
        k = k + 1;
    }
    assert forall|m: int| 0 <= m < to - from implies cs@.subrange(from as int, to as int)[m] != c by {
        assert(cs@.subrange(from as int, to as int)[m] == cs@[from + m]);
    }
    false
}

/// The ordinal that `cs[from..to]` spells: digits only.
fn ordinal(cs: &Vec<char>, from: usize, to: usize) -> (r: Option<usize>)
    requires
        from <= to <= cs.len(),
    ensures
        r == ordinal_of(cs@.subrange(from as int, to as int)),
{
    let ghost digits = cs@.subrange(from as int, to as int);
    if from == to {
        return None;
    }
    let mut value: usize = 0;
    let mut k = from;
    while k < to
        invariant
            from < to <= cs.len(),
            from <= k <= to,
            digits == cs@.subrange(from as int, to as int),
            forall|m: int| 0 <= m < k - from ==> is_digit(#[trigger] digits[m]),
            value == decimal(digits.take(k - from)),
        decreases to - k,
    {
        let c = cs[k];
        if !('0' <= c && c <= '9') {
            assert(digits[k - from] == c);
            assert(!is_digit(digits[k - from]));
            return None;
        }
        let d = ((c as u32) - ('0' as u32)) as usize;
        assert(digits.take(k - from + 1).drop_last() =~= digits.take(k - from));
        assert(digits.take(k - from + 1).last() == c);
        assert(decimal(digits.take(k - from + 1)) == decimal(digits.take(k - from)) * 10 + d);
        let next = match value.checked_mul(10) {
            Some(tens) => tens.checked_add(d),
            None => None,
        };
        match next {
            Some(v) => {
                value = v;
            },
            None => {
                proof {
                    lemma_decimal_prefix(digits, k - from + 1);
                }
                return None;
            },
        }
        k = k + 1;
    }
    assert(digits.take(to - from) =~= digits);
    Some(value)
}

/// The segment that the bracket body `cs[from..to]` denotes.
fn bracket(expression: &str, cs: &Vec<char>, from: usize, to: usize) -> (r: Option<Segment>)
    requires
        cs@ == expression@,
        from <= to <= cs.len(),
    ensures
        match r {
            Some(segment) => bracket_step(cs@.subrange(from as int, to as int)) == Some(segment@),
            None => bracket_step(cs@.subrange(from as int, to as int)) is None,
        },
{
    let ghost body = cs@.subrange(from as int, to as int);
    if to - from == 1 && cs[from] == 'n' {
        assert(body =~= seq!['n']);
        return Some(Segment::Any);
    }
    assert(!(body =~= seq!['n']));
    if to - from >= 2 && cs[from] == '\'' && cs[to - 1] == '\'' {
        let ghost key = body.subrange(1, body.len() - 1);
        assert(key =~= cs@.subrange(from + 1, to - 1));
        if holds_char(cs, from + 1, to - 1, '\'') {
            return None;
        }
        let key = expression.substring_char(from + 1, to - 1).to_owned();
        return Some(Segment::Key(key));
    }
    match ordinal(cs, from, to) {
        Some(index) => Some(Segment::Number(index)),
        None => None,
    }
}

impl Selector {
    /// A selector has at least one segment.
    #[verifier::type_invariant]
    spec fn has_a_segment(self) -> bool {
        self.segments.len() > 0
    }

    /// Parse `expression`. Names are joined by `.`; brackets follow a name or
    /// another bracket directly; a name after a bracket needs its `.`.
    /// The result is exactly what [`parsed`] says of the expression: its steps,
    /// or the first reason it is refused; an accepted selector has at least one
    /// segment.
    pub fn parse(expression: &str) -> (r: Result<Selector, SelectorError>)
        ensures
            match r {
                Ok(selector) => parsed(expression@) == Ok::<Seq<Step>, SelectorError>(selector@) && selector@.len() > 0,
                Err(e) => parsed(expression@) == Err::<Seq<Step>, SelectorError>(e),
            },
    {
        let cs = chars_of(expression);
        let n = cs.len();
        let mut segments: Vec<Segment> = Vec::new();
        let mut i: usize = 0;
        while i < n
            invariant
                n == cs@.len(),
                cs@ == expression@,
                i <= n,
                parsed(cs@) == after(steps_of(segments@), steps_from(cs@, i as int, segments@.len() > 0)),
            decreases n - i,
        {
            let ghost done = steps_of(segments@);
            let ghost started = segments@.len() > 0;
            if cs[i] == '[' {
                let close = scan_bracket_end(&cs, i + 1);
                if close >= n {
                    return Err(SelectorError::NeverClosed);
                }
                match bracket(expression, &cs, i + 1, close) {
                    None => {
                        return Err(SelectorError::NotABracket { from: i + 1, to: close });
                    },
                    Some(segment) => {
                        proof {
                            lemma_bracket_end_bounds(cs@, i + 1);
                        }
                        let ghost rest = steps_from(cs@, close + 1, true);
                        segments.push(segment);
                        assert(steps_of(segments@) =~= done.push(segment@));
                        proof {
                            if let Ok(steps) = rest {
                                assert(done + (seq![segment@] + steps) =~= done.push(segment@) + steps);
                            }
                        }
                        i = close + 1;
                    },
                }
            } else if cs[i] == '.' && segments.len() == 0 {
                return Err(SelectorError::StartsWithDot);
            } else if cs[i] != '.' && segments.len() > 0 {
                return Err(SelectorError::NameFollowsBracket);
            } else {
                let from = if cs[i] == '.' {
                    i + 1
                } else {
                    i
                };
                let to = scan_name_end(&cs, from);
                if to <= from {
                    return Err(SelectorError::EmptyName);
                }
                if holds_char(&cs, from, to, ']') || holds_char(&cs, from, to, '\'') {
                    return Err(SelectorError::NotAName { from, to });
                }
                let name = expression.substring_char(from, to).to_owned();
                let ghost rest = steps_from(cs@, to as int, true);
                let segment = Segment::Name(name);
                segments.push(segment);
                assert(steps_of(segments@) =~= done.push(segment@));
                proof {
                    if let Ok(steps) = rest {
                        assert(done + (seq![segment@] + steps) =~= done.push(segment@) + steps);
                    }
                }
                i = to;
            }
        }
        if segments.len() == 0 {
            return Err(SelectorError::Empty);
        }
        assert(steps_of(segments@) + seq![] =~= steps_of(segments@));
        let selector = Selector { segments };
        assert(selector@ == steps_of(selector.segments@));
        Ok(selector)
    }

    /// The steps, in order.
    pub fn segments(&self) -> (segments: &[Segment])
        ensures
            steps_of(segments@) == self@,
            segments@.len() > 0,
    {
        proof {
            use_type_invariant(self);
        }
        self.segments.as_slice()
    }

    /// The declared evaluation: what can be known about the cost of a read
    /// before performing it. A wildcard anywhere makes it a scan; otherwise an
    /// ordinal makes it a materialized section; names and keys alone stay in
    /// the prefix.
    pub fn reach(&self) -> (reach: Reach)
        ensures
            reach == reach_of(self@),
    {
        let ghost steps = self@;
        let mut any = false;
        let mut number = false;
        let mut k: usize = 0;
        while k < self.segments.len()
            invariant
                k <= self.segments@.len(),
                steps == steps_of(self.segments@),
                any == exists|m: int| 0 <= m < k && steps[m] is Any,
                number == exists|m: int| 0 <= m < k && steps[m] is Number,
            decreases self.segments.len() - k,
        {
            match &self.segments[k] {
                Segment::Any => {
                    any = true;
                },
                Segment::Number(_) => {
                    number = true;
                },
                _ => {},
            }
            assert(steps[k as int] == self.segments@[k as int]@);
            k = k + 1;
        }
        if any {
            Reach::StreamScan
        } else if number {
            Reach::MaterializedSection
        } else {
            Reach::StreamPrefix
        }
    }
}

} // verus!
