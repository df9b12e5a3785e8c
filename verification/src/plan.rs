use vstd::prelude::*;
use vstd::string::*;

use crate::id::{is_whitespace, is_whitespace_spec};

verus! {

/// How many white-space characters `s` starts with.
pub open spec fn lead_ws(s: Seq<char>) -> nat
    decreases s.len(),
{
    if s.len() > 0 && is_whitespace_spec(s[0]) {
        1 + lead_ws(s.drop_first())
    } else {
        0
    }
}

/// How many white-space characters `s` ends with.
pub open spec fn trail_ws(s: Seq<char>) -> nat
    decreases s.len(),
{
    if s.len() > 0 && is_whitespace_spec(s.last()) {
        1 + trail_ws(s.drop_last())
    } else {
        0
    }
}

/// `s` without leading and trailing white space (what `str::trim` gives).
pub open spec fn trimmed(s: Seq<char>) -> Seq<char> {
    let t = s.skip(lead_ws(s) as int);
    t.take(t.len() - trail_ws(t))
}

/// Where the first `=>` of `s` starts, if there is one.
pub open spec fn arrow_at(s: Seq<char>) -> Option<nat>
    decreases s.len(),
{
    if s.len() < 2 {
        None
    } else if s[0] == '=' && s[1] == '>' {
        Some(0)
    } else {
        match arrow_at(s.drop_first()) {
            Some(i) => Some(i + 1),
            None => None,
        }
    }
}

/// The step a trimmed, non-empty plan line describes: the text before the
/// first `=>` is the action and the text after it the expected evidence,
/// both trimmed; a line without `=>` is all action.
pub open spec fn parsed_line(line: Seq<char>) -> (Seq<char>, Option<Seq<char>>) {
    match arrow_at(line) {
        Some(i) => (trimmed(line.take(i as int)), Some(trimmed(line.skip(i + 2int)))),
        None => (line, None),
    }
}

/// Where the first line break of `s` is, or its length when there is none.
pub open spec fn newline_at(s: Seq<char>) -> nat
    decreases s.len(),
{
    if s.len() == 0 {
        0
    } else if s[0] == '\n' {
        0
    } else {
        1 + newline_at(s.drop_first())
    }
}

pub proof fn lemma_newline_at_bound(s: Seq<char>)
    ensures
        newline_at(s) <= s.len(),
        newline_at(s) < s.len() ==> s[newline_at(s) as int] == '\n',
    decreases s.len(),
{
    if s.len() > 0 && s[0] != '\n' {
        lemma_newline_at_bound(s.drop_first());
    }
}

/// The steps a completion proposes: every line, trimmed; empty lines are
/// skipped and the others parsed as [`parsed_line`] says.
pub open spec fn proposed(text: Seq<char>) -> Seq<(Seq<char>, Option<Seq<char>>)>
    decreases text.len(),
{
    let n = newline_at(text);
    let line = trimmed(text.take(n as int));
    let here = if line.len() == 0 {
        Seq::empty()
    } else {
        seq![parsed_line(line)]
    };
    if n < text.len() {
        proof {
            lemma_newline_at_bound(text);
        }
        here + proposed(text.skip(n + 1int))
    } else {
        here
    }
}

proof fn lemma_lead_ws(s: Seq<char>, n: int)
    requires
        0 <= n <= s.len(),
        forall|k: int| 0 <= k < n ==> is_whitespace_spec(#[trigger] s[k]),
        n == s.len() || !is_whitespace_spec(s[n]),
    ensures
        lead_ws(s) == n,
    decreases n,
{
    if n > 0 {
        assert forall|k: int| 0 <= k < n - 1 implies is_whitespace_spec(#[trigger] s.drop_first()[k]) by {
            assert(s.drop_first()[k] == s[k + 1]);
        }
        lemma_lead_ws(s.drop_first(), n - 1);
    }
}

proof fn lemma_trail_ws(s: Seq<char>, n: int)
    requires
        0 <= n <= s.len(),
        forall|k: int| s.len() - n <= k < s.len() ==> is_whitespace_spec(#[trigger] s[k]),
        n == s.len() || !is_whitespace_spec(s[s.len() - n - 1]),
    ensures
        trail_ws(s) == n,
    decreases n,
{
    if n > 0 {
        assert(is_whitespace_spec(s.last()));
        assert forall|k: int| s.drop_last().len() - (n - 1) <= k < s.drop_last().len() implies is_whitespace_spec(
            #[trigger] s.drop_last()[k],
        ) by {
            assert(s.drop_last()[k] == s[k]);
        }
        lemma_trail_ws(s.drop_last(), n - 1);
    } else if s.len() > 0 {
        assert(!is_whitespace_spec(s.last()));
    }
}

proof fn lemma_newline_at(s: Seq<char>, n: int)
    requires
        0 <= n <= s.len(),
        forall|k: int| 0 <= k < n ==> #[trigger] s[k] != '\n',
        n == s.len() || s[n] == '\n',
    ensures
        newline_at(s) == n,
    decreases n,
{
    if n > 0 {
        assert forall|k: int| 0 <= k < n - 1 implies #[trigger] s.drop_first()[k] != '\n' by {
            assert(s.drop_first()[k] == s[k + 1]);
        }
        lemma_newline_at(s.drop_first(), n - 1);
    }
}

proof fn lemma_arrow_at(s: Seq<char>, n: int)
    requires
        0 <= n,
        forall|k: int| 0 <= k < n && k + 1 < s.len() ==> !(#[trigger] s[k] == '=' && s[k + 1] == '>'),
        n + 1 >= s.len() || (s[n] == '=' && s[n + 1] == '>'),
    ensures
        arrow_at(s) == if n + 1 < s.len() {
            Some(n as nat)
        } else {
            None::<nat>
        },
    decreases s.len(),
{
    if s.len() >= 2 {
        if n > 0 {
            assert(!(s[0] == '=' && s[1] == '>'));
            assert forall|k: int|
                0 <= k < n - 1 && k + 1 < s.drop_first().len() implies !(#[trigger] s.drop_first()[k] == '='
                && s.drop_first()[k + 1] == '>') by {
                assert(s.drop_first()[k] == s[k + 1]);
                assert(s.drop_first()[k + 1] == s[k + 2]);
            }
            if n + 1 < s.len() {
                assert(s.drop_first()[n - 1] == s[n]);
                assert(s.drop_first()[n] == s[n + 1]);
            }
            lemma_arrow_at(s.drop_first(), n - 1);
        }
    }
}

/// The bounds of `s[from..to]` with white space trimmed from both ends.
fn trim_range(s: &str, from: usize, to: usize) -> (r: (usize, usize))
    requires
        from <= to <= s@.len(),
    ensures
        from <= r.0 <= r.1 <= to,
        s@.subrange(r.0 as int, r.1 as int) == trimmed(s@.subrange(from as int, to as int)),
{
    let ghost piece = s@.subrange(from as int, to as int);
    let mut a = from;
    while a < to && is_whitespace(s.get_char(a))
        invariant
            from <= a <= to <= s@.len(),
            forall|k: int| from <= k < a ==> is_whitespace_spec(#[trigger] s@[k]),
        decreases to - a,
    {
        a = a + 1;
    }
    let mut b = to;
    while b > a && is_whitespace(s.get_char(b - 1))
        invariant
            a <= b <= to <= s@.len(),
            forall|k: int| b <= k < to ==> is_whitespace_spec(#[trigger] s@[k]),
        decreases b - a,
    {
        b = b - 1;
    }
    proof {
        let lead = a - from;
        assert forall|k: int| 0 <= k < lead implies is_whitespace_spec(#[trigger] piece[k]) by {
            assert(piece[k] == s@[from + k]);
        }
        if a < to {
            assert(piece[lead as int] == s@[a as int]);
        }
        lemma_lead_ws(piece, lead as int);
        let t = piece.skip(lead as int);
        let trail = to - b;
        assert forall|k: int| t.len() - trail <= k < t.len() implies is_whitespace_spec(#[trigger] t[k]) by {
            assert(t[k] == s@[a + k]);
        }
        if b > a {
            assert(t[t.len() - trail - 1] == s@[b - 1]);
        }
        lemma_trail_ws(t, trail as int);
        assert(s@.subrange(a as int, b as int) =~= t.take(t.len() - trail));
    }
    (a, b)
}

/// One step of a plan: the action to take, and the evidence its outcome is
/// expected to contain, if the plan names any.
#[derive(Debug, Clone, PartialEq, Eq)]
pub struct Step {
    action: String,
    expected: Option<String>,
}

impl View for Step {
    type V = (Seq<char>, Option<Seq<char>>);

    closed spec fn view(&self) -> (Seq<char>, Option<Seq<char>>) {
        (
            self.action@,
            match &self.expected {
                Some(e) => Some(e@),
                None => None,
            },
        )
    }
}

impl Step {
    /// A step taking `action`, expecting an outcome that contains `expected`
    /// when it is given, and accepting any outcome otherwise.
    pub fn new(action: &str, expected: Option<&str>) -> (r: Self)
        ensures
            r@.0 == action@,
            r@.1 == match expected {
                Some(e) => Some(e@),
                None => None::<Seq<char>>,
            },
    {
        let expected = match expected {
            Some(e) => Some(String::from_str(e)),
            None => None,
        };
        Step { action: String::from_str(action), expected }
    }

    pub fn action(&self) -> (r: &str)
        ensures
            r@ == self@.0,
    {
        self.action.as_str()
    }

    /// The evidence the step's outcome is expected to contain, if any.
    pub fn expected(&self) -> (r: Option<&str>)
        ensures
            match r {
                Some(e) => self@.1 == Some(e@),
                None => self@.1 is None,
            },
    {
        match &self.expected {
            Some(e) => Some(e.as_str()),
            None => None,
        }
    }
}

/// Parse one trimmed plan line: `action => expected` or just `action`.
pub fn parse_step(line: &str) -> (r: Step)
    ensures
        r@ == parsed_line(line@),
{
    let n = line.unicode_len();
    let mut i: usize = 0;
    while n >= 2 && i < n - 1 && !(line.get_char(i) == '=' && line.get_char(i + 1) == '>')
        invariant
            n == line@.len(),
            i <= n,
            forall|k: int| 0 <= k < i && k + 1 < line@.len() ==> !(#[trigger] line@[k] == '=' && line@[k + 1] == '>'),
        decreases n - i,
    {
        i = i + 1;
    }
    proof {
        lemma_arrow_at(line@, i as int);
    }
    if n >= 2 && i < n - 1 {
        let (a, b) = trim_range(line, 0, i);
        let (c, d) = trim_range(line, i + 2, n);
        assert(line@.subrange(0, i as int) =~= line@.take(i as int));
        assert(line@.subrange(i + 2, n as int) =~= line@.skip(i + 2));
        let action = String::from_str(line.substring_char(a, b));
        let expected = String::from_str(line.substring_char(c, d));
        Step { action, expected: Some(expected) }
    } else {
        Step { action: String::from_str(line), expected: None }
    }
}

/// Parse a planning completion into steps: one per non-empty line, each
/// trimmed and split at its first `=>`.
pub fn parse_steps(completion: &str) -> (r: Vec<Step>)
    ensures
        r@.map_values(|s: Step| s@) == proposed(completion@),
{
    let n = completion.unicode_len();
    let mut out: Vec<Step> = Vec::new();
    let mut start: usize = 0;
    proof {
        assert(completion@.skip(0) =~= completion@);
    }
    loop
        invariant
            n == completion@.len(),
            start <= n,
            out@.map_values(|s: Step| s@) + proposed(completion@.skip(start as int)) == proposed(
                completion@,
            ),
        decreases n - start,
    {
        let ghost rest = completion@.skip(start as int);
        let mut end = start;
        while end < n && completion.get_char(end) != '\n'
            invariant
                n == completion@.len(),
                start <= end <= n,
                forall|k: int| start <= k < end ==> #[trigger] completion@[k] != '\n',
            decreases n - end,
        {
            end = end + 1;
        }
        proof {
            assert forall|k: int| 0 <= k < end - start implies #[trigger] rest[k] != '\n' by {
                assert(rest[k] == completion@[start + k]);
            }
            if end < n {
                assert(rest[end - start] == completion@[end as int]);
            }
            lemma_newline_at(rest, end - start);
            assert(rest.take(end - start) =~= completion@.subrange(start as int, end as int));
        }
        let (a, b) = trim_range(completion, start, end);
        let ghost before = out@.map_values(|s: Step| s@);
        if a < b {
            let step = parse_step(completion.substring_char(a, b));
            out.push(step);
            assert(out@.map_values(|s: Step| s@) =~= before.push(step@));
        }
        if end < n {
            proof {
                assert(rest.skip(end - start + 1) =~= completion@.skip(end + 1));
                let here = out@.map_values(|s: Step| s@);
                assert(here + proposed(completion@.skip(end + 1)) =~= before + proposed(rest));
            }
            start = end + 1;
        } else {
            proof {
                let here = out@.map_values(|s: Step| s@);
                assert(here =~= before + proposed(rest));
            }
            return out;
        }
    }
}

/// Parse a planning completion into a plan (see [`parse_steps`]).
pub fn parse_plan(completion: &str) -> (r: Plan)
    ensures
        r@ == proposed(completion@),
{
    Plan::new(parse_steps(completion))
}

/// An ordered sequence of steps.
#[derive(Debug, Clone, PartialEq, Eq)]
pub struct Plan {
    steps: Vec<Step>,
}

impl View for Plan {
    type V = Seq<(Seq<char>, Option<Seq<char>>)>;

    closed spec fn view(&self) -> Seq<(Seq<char>, Option<Seq<char>>)> {
        self.steps@.map_values(|s: Step| s@)
    }
}

impl Plan {
    pub fn new(steps: Vec<Step>) -> (r: Self)
        ensures
            r@ == steps@.map_values(|s: Step| s@),
    {
        Plan { steps }
    }

    /// The step at `index`, if the plan has one.
    pub fn step(&self, index: usize) -> (r: Option<&Step>)
        ensures
            match r {
                Some(s) => index < self@.len() && s@ == self@[index as int],
                None => index >= self@.len(),
            },
    {
        if index < self.steps.len() {
            Some(&self.steps[index])
        } else {
            None
        }
    }

    pub fn steps(&self) -> (r: &[Step])
        ensures
            r@.map_values(|s: Step| s@) == self@,
    {
        self.steps.as_slice()
    }

    pub fn len(&self) -> (r: usize)
        ensures
            r == self@.len(),
    {
        self.steps.len()
    }

    pub fn is_empty(&self) -> (r: bool)
        ensures
            r == (self@.len() == 0),
    {
        self.steps.len() == 0
    }

    /// This plan followed by `next`.
    pub fn followed_by(self, next: Plan) -> (r: Plan)
        ensures
            r@ == self@ + next@,
    {
        let mut steps = self.steps;
        let mut more = next.steps;
        let ghost a = steps@;
        let ghost b = more@;
        steps.append(&mut more);
        assert(steps@.map_values(|s: Step| s@) =~= a.map_values(|s: Step| s@) + b.map_values(|s: Step| s@));
        Plan { steps }
    }

    /// The sub-goal plans `parts` expanded in order into one plan.
    pub fn compose(parts: Vec<Plan>) -> (r: Plan)
        ensures
            r@ == parts@.map_values(|p: Plan| p@).flatten(),
    {
        let ghost views = parts@.map_values(|p: Plan| p@);
        let mut parts = parts;
        let mut out = Plan { steps: Vec::new() };
        let ghost mut done: Seq<Seq<(Seq<char>, Option<Seq<char>>)>> = Seq::empty();
        proof {
            assert(out@ =~= Seq::<(Seq<char>, Option<Seq<char>>)>::empty());
            assert(done + parts@.map_values(|p: Plan| p@) =~= views);
        }
        while parts.len() > 0
            invariant
                done + parts@.map_values(|p: Plan| p@) == views,
                out@ == done.flatten(),
            decreases parts@.len(),
        {
            let ghost rest = parts@.map_values(|p: Plan| p@);
            let part = parts.remove(0);
            let ghost pv = part@;
            out = out.followed_by(part);
            proof {
                assert(rest[0] == pv);
                assert(parts@.map_values(|p: Plan| p@) =~= rest.drop_first());
                done.lemma_flatten_push(pv);
                done = done.push(pv);
                assert(done + parts@.map_values(|p: Plan| p@) =~= views);
            }
        }
        proof {
            assert(done =~= views);
        }
        out
    }
}

/// The frames left once every exhausted child frame on top is popped; the
/// root frame always stays.
pub open spec fn settled(frames: Seq<(Seq<(Seq<char>, Option<Seq<char>>)>, usize)>) -> Seq<
    (Seq<(Seq<char>, Option<Seq<char>>)>, usize),
>
    decreases frames.len(),
{
    if frames.len() > 1 && frames.last().1 >= frames.last().0.len() {
        settled(frames.drop_last())
    } else {
        frames
    }
}

/// The step the settled top frame points at, if it is not exhausted.
pub open spec fn current_step(frames: Seq<(Seq<(Seq<char>, Option<Seq<char>>)>, usize)>) -> Option<
    (Seq<char>, Option<Seq<char>>),
> {
    let top = settled(frames).last();
    if top.1 < top.0.len() {
        Some(top.0[top.1 as int])
    } else {
        None
    }
}

/// One active plan frame: a plan and a cursor into it.
struct Frame {
    plan: Plan,
    cursor: usize,
}

impl View for Frame {
    type V = (Seq<(Seq<char>, Option<Seq<char>>)>, usize);

    closed spec fn view(&self) -> (Seq<(Seq<char>, Option<Seq<char>>)>, usize) {
        (self.plan@, self.cursor)
    }
}

/// A stack of plan frames for hierarchical, lazily expanded execution: a
/// sub-goal is expanded into a child frame only when reached and only when
/// its precondition holds; the child runs to completion, then control
/// returns to its parent.
pub struct PlanStack {
    frames: Vec<Frame>,
}

impl View for PlanStack {
    type V = Seq<(Seq<(Seq<char>, Option<Seq<char>>)>, usize)>;

    /// The frames, root first: each plan and its cursor.
    closed spec fn view(&self) -> Seq<(Seq<(Seq<char>, Option<Seq<char>>)>, usize)> {
        self.frames@.map_values(|f: Frame| f@)
    }
}

impl PlanStack {
    /// There is always a root frame.
    pub closed spec fn wf(&self) -> bool {
        self.frames@.len() >= 1
    }

    /// A stack holding `root`, at its first step.
    pub fn new(root: Plan) -> (r: Self)
        ensures
            r.wf(),
            r@ == seq![(root@, 0usize)],
    {
        let mut frames: Vec<Frame> = Vec::new();
        frames.push(Frame { plan: root, cursor: 0 });
        let r = PlanStack { frames };
        assert(r@ =~= seq![(root@, 0usize)]);
        r
    }

    /// The current step: the cursor of the deepest unfinished frame, popping
    /// exhausted child frames back to their parent first. `None` once the
    /// root frame is exhausted.
    pub fn current(&mut self) -> (r: Option<&Step>)
        requires
            old(self).wf(),
        ensures
            final(self).wf(),
            final(self)@ == settled(old(self)@),
            match r {
                Some(s) => current_step(old(self)@) == Some(s@),
                None => current_step(old(self)@) is None,
            },
    {
        let ghost start = self@;
        loop
            invariant
                self.frames@.len() >= 1,
                settled(self@) == settled(start),
            ensures
                self.frames@.len() >= 1,
                settled(self@) == settled(start),
                settled(self@) == self@,
            decreases self.frames@.len(),
        {
            let n = self.frames.len();
            if n <= 1 {
                break;
            }
            let top = &self.frames[n - 1];
            assert(self@[n - 1] == top@);
            if top.cursor < top.plan.len() {
                break;
            }
            let ghost before = self@;
            self.frames.pop();
            assert(self@ =~= before.drop_last());
        }
        let n = self.frames.len();
        let frame = &self.frames[n - 1];
        assert(self@[n - 1] == frame@);
        assert(settled(self@) == self@);
        frame.plan.step(frame.cursor)
    }

    /// Advance past the current step of the deepest frame.
    pub fn advance(&mut self)
        requires
            old(self).wf(),
        ensures
            final(self).wf(),
            final(self)@ == old(self)@.update(
                old(self)@.len() - 1,
                (
                    old(self)@.last().0,
                    if old(self)@.last().1 == usize::MAX {
                        usize::MAX
                    } else {
                        (old(self)@.last().1 + 1) as usize
                    },
                ),
            ),
    {
        let ghost before = self@;
        let mut frame = self.frames.pop().unwrap();
        assert(frame@ == before.last());
        frame.cursor = frame.cursor.saturating_add(1);
        self.frames.push(frame);
        assert(self@ =~= before.update(
            before.len() - 1,
            (before.last().0, if before.last().1 == usize::MAX {
                usize::MAX
            } else {
                (before.last().1 + 1) as usize
            }),
        ));
    }

    /// Expand `subgoal` as a child frame that runs before the parent
    /// continues, but only when `precondition` holds. Returns whether it was
    /// expanded.
    pub fn expand_if(&mut self, subgoal: Plan, precondition: bool) -> (r: bool)
        requires
            old(self).wf(),
        ensures
            final(self).wf(),
            r == precondition,
            final(self)@ == if precondition {
                old(self)@.push((subgoal@, 0usize))
            } else {
                old(self)@
            },
    {
        if precondition {
            let ghost before = self@;
            let ghost sv = subgoal@;
            self.frames.push(Frame { plan: subgoal, cursor: 0 });
            assert(self@ =~= before.push((sv, 0usize)));
            true
        } else {
            false
        }
    }

    /// Expand `subgoal` unconditionally.
    pub fn expand(&mut self, subgoal: Plan)
        requires
            old(self).wf(),
        ensures
            final(self).wf(),
            final(self)@ == old(self)@.push((subgoal@, 0usize)),
    {
        let _ = self.expand_if(subgoal, true);
    }

    /// How many frames are active, the root counting as one.
    pub fn depth(&self) -> (r: usize)
        ensures
            r == self@.len(),
    {
        self.frames.len()
    }

    /// Whether every frame is exhausted.
    pub fn is_done(&mut self) -> (r: bool)
        requires
            old(self).wf(),
        ensures
            final(self).wf(),
            final(self)@ == settled(old(self)@),
            r == current_step(old(self)@) is None,
    {
        self.current().is_none()
    }
}

} // verus!
