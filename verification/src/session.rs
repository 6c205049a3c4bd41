use vstd::prelude::*;

use crate::group::{lemma_filter_all, lemma_filter_push, LogSet};
use crate::parse::{Line, LineV};
use crate::text::{contains_str, has_substring, substring_at};

verus! {

/// Whether the main loop keeps running.
#[derive(PartialEq, Eq, Structural, Clone, Copy, Debug)]
pub enum RunningState {
    Run,
    Done,
}

/// The interaction mode: navigating sets, or editing the filter text.
#[derive(PartialEq, Eq, Structural, Clone, Copy, Debug)]
pub enum AppMode {
    Normal,
    Search,
}

/// The messages that drive the session state machine.
#[derive(PartialEq, Eq, Structural, Clone, Copy, Debug)]
pub enum Message {
    NextSet,
    PrevSet,
    Quit,
    GoSearch,
    SubmitSearch,
    SearchBackspace,
    SearchKey(char),
}

/// What the session reads from one key press.
#[derive(PartialEq, Eq, Structural, Clone, Copy, Debug)]
pub enum Key {
    Char(char),
    Enter,
    Backspace,
    Other,
}

/// The live session state: the ordered log sets, the selection into the
/// currently visible sets, the interaction mode, and the filter text.
pub struct Model {
    pub running_state: RunningState,
    pub log_sets: Vec<LogSet>,
    pub current_item: Option<usize>,
    pub mode: AppMode,
    pub filter: String,
}

/// A line matches the filter when its raw text contains it literally.
pub open spec fn line_matches(l: LineV, f: Seq<char>) -> bool {
    has_substring(l.text, f)
}

/// A set is visible when some line of it matches the filter.
pub open spec fn set_matches(g: Seq<LineV>, f: Seq<char>) -> bool {
    exists|i: int| 0 <= i < g.len() && #[trigger] line_matches(g[i], f)
}

/// The visibility predicate that the filter text `f` induces on sets.
pub open spec fn visible_pred(f: Seq<char>) -> spec_fn(Seq<LineV>) -> bool {
    |g: Seq<LineV>| set_matches(g, f)
}

impl Model {
    /// The subsequence of log sets that match the current filter, in order.
    pub open spec fn visible(self) -> Seq<Seq<LineV>> {
        self.log_sets.deep_view().filter(visible_pred(self.filter@))
    }

    /// Every held log set is non-empty.
    pub open spec fn sets_wf(self) -> bool {
        forall|k: int|
            0 <= k < self.log_sets.deep_view().len() ==> #[trigger] self.log_sets.deep_view()[k].len()
                > 0
    }

    /// The selection indexes the visible sets, and is absent exactly when
    /// nothing is visible.
    pub open spec fn selection_wf(self) -> bool {
        match self.current_item {
            None => self.visible().len() == 0,
            Some(i) => i < self.visible().len(),
        }
    }

    pub open spec fn wf(self) -> bool {
        self.sets_wf() && self.selection_wf()
    }
}

/// Decides whether a set matches the filter.
fn set_matches_filter(g: &LogSet, filter: &String) -> (r: bool)
    ensures
        r == set_matches(g@, filter@),
{
    let mut i: usize = 0;
    while i < g.lines.len()
        invariant
            i <= g.lines@.len(),
            g@.len() == g.lines@.len(),
            forall|m: int| 0 <= m < i ==> !#[trigger] line_matches(g@[m], filter@),
        decreases g.lines@.len() - i,
    {
        proof {
            assert(g@[i as int] == g.lines@[i as int]@);
        }
        if contains_str(g.lines[i].text.as_str(), filter.as_str()) {
            proof {
                assert(line_matches(g@[i as int], filter@));
            }
            return true;
        }
        i = i + 1;
    }
    false
}

impl Model {
    /// The visible log sets: those with a line containing the filter text,
    /// in their stored order.
    pub fn filtered_log_sets<'a>(&'a self) -> (r: Vec<&'a LogSet>)
        ensures
            r.deep_view() == self.visible(),
    {
        let ghost pred = visible_pred(self.filter@);
        let mut out: Vec<&'a LogSet> = Vec::new();
        let mut k: usize = 0;
        proof {
            assert(self.log_sets.deep_view().take(0) =~= Seq::<Seq<LineV>>::empty());
            assert(out.deep_view() =~= Seq::<Seq<LineV>>::empty().filter(pred));
        }
        while k < self.log_sets.len()
            invariant
                k <= self.log_sets@.len(),
                self.log_sets.deep_view().len() == self.log_sets@.len(),
                pred == visible_pred(self.filter@),
                out.deep_view() == self.log_sets.deep_view().take(k as int).filter(pred),
            decreases self.log_sets@.len() - k,
        {
            let ghost dv = self.log_sets.deep_view();
            proof {
                assert(dv.take(k + 1) =~= dv.take(k as int).push(dv[k as int]));
                lemma_filter_push(dv.take(k as int), pred, dv[k as int]);
                assert(dv[k as int] == self.log_sets@[k as int]@);
            }
            let g = &self.log_sets[k];
            if set_matches_filter(g, &self.filter) {
                let ghost out0 = out.deep_view();
                out.push(g);
                proof {
                    assert(out.deep_view() =~= out0.push(dv[k as int]));
                }
            }
            k = k + 1;
        }
        proof {
            assert(self.log_sets.deep_view().take(k as int) =~= self.log_sets.deep_view());
        }
        out
    }

    /// How many sets are visible under the current filter.
    pub fn visible_len(&self) -> (n: usize)
        ensures
            n as int == self.visible().len(),
    {
        let fs = self.filtered_log_sets();
        proof {
            assert(fs.deep_view().len() == fs@.len());
        }
        fs.len()
    }

    /// The lines of the selected set, if one is selected.
    pub fn current_lines<'a>(&'a self) -> (r: Option<&'a Vec<Line>>)
        requires
            self.wf(),
        ensures
            r is Some <==> self.current_item is Some,
            (match self.current_item {
                Some(i) => r matches Some(v) && v.deep_view() == self.visible()[i as int],
                None => r is None,
            }),
    {
        match self.current_item {
            None => None,
            Some(i) => {
                let fs = self.filtered_log_sets();
                proof {
                    assert(fs.deep_view().len() == fs@.len());
                    assert(fs.deep_view()[i as int] == fs@[i as int].deep_view());
                }
                let g: &LogSet = fs[i];
                Some(&g.lines)
            },
        }
    }

    /// Builds the initial session over the given sets: normal mode, an empty
    /// filter (everything visible), and the first set selected if any exists.
    pub fn new(log_sets: Vec<LogSet>) -> (m: Model)
        requires
            forall|k: int|
                0 <= k < log_sets.deep_view().len() ==> #[trigger] log_sets.deep_view()[k].len()
                    > 0,
        ensures
            m.wf(),
            m.log_sets == log_sets,
            m.running_state == RunningState::Run,
            m.mode == AppMode::Normal,
            m.filter@ == Seq::<char>::empty(),
            m.visible() == m.log_sets.deep_view(),
            m.current_item == (if log_sets.deep_view().len() > 0 {
                Some(0usize)
            } else {
                None::<usize>
            }),
    {
        let n = log_sets.len();
        let current_item: Option<usize> = if n > 0 {
            Some(0)
        } else {
            None
        };
        let m = Model {
            running_state: RunningState::Run,
            log_sets,
            current_item,
            mode: AppMode::Normal,
            filter: String::new(),
        };
        proof {
            let dv = m.log_sets.deep_view();
            let pred = visible_pred(m.filter@);
            assert forall|k: int| 0 <= k < dv.len() implies pred(#[trigger] dv[k]) by {
                assert(dv[k][0].text.subrange(0, 0) =~= m.filter@);
                assert(substring_at(dv[k][0].text, m.filter@, 0));
                assert(line_matches(dv[k][0], m.filter@));
            }
            lemma_filter_all(dv, pred);
            assert(m.visible() == dv);
        }
        m
    }
}

/// The selection after a filter edit: clamped into the visible range, the
/// first set when nothing was selected, absent when nothing is visible.
pub open spec fn revalidated(sel: Option<usize>, n: int) -> Option<usize> {
    if n == 0 {
        None
    } else {
        match sel {
            None => Some(0usize),
            Some(i) => if i < n {
                Some(i)
            } else {
                Some((n - 1) as usize)
            },
        }
    }
}

/// The selection after `NextSet`: one further, clamped at the last index.
pub open spec fn next_selection(m: Model) -> Option<usize> {
    match m.current_item {
        None => None,
        Some(i) => if i + 1 < m.visible().len() {
            Some((i + 1) as usize)
        } else {
            Some(i)
        },
    }
}

/// The selection after `PrevSet`: one back, clamped at the first index.
pub open spec fn prev_selection(m: Model) -> Option<usize> {
    match m.current_item {
        None => None,
        Some(i) => if i > 0 {
            Some((i - 1) as usize)
        } else {
            Some(i)
        },
    }
}

/// How one message takes the session from `m0` to `m1`.
pub open spec fn transition(m0: Model, m1: Model, msg: Message) -> bool {
    match msg {
        Message::Quit => {
            &&& m1.running_state == RunningState::Done
            &&& m1.log_sets == m0.log_sets
            &&& m1.current_item == m0.current_item
            &&& m1.mode == m0.mode
            &&& m1.filter == m0.filter
        },
        Message::NextSet => {
            &&& m1.running_state == m0.running_state
            &&& m1.log_sets == m0.log_sets
            &&& m1.current_item == next_selection(m0)
            &&& m1.mode == m0.mode
            &&& m1.filter == m0.filter
        },
        Message::PrevSet => {
            &&& m1.running_state == m0.running_state
            &&& m1.log_sets == m0.log_sets
            &&& m1.current_item == prev_selection(m0)
            &&& m1.mode == m0.mode
            &&& m1.filter == m0.filter
        },
        Message::GoSearch => {
            &&& m1.running_state == m0.running_state
            &&& m1.log_sets == m0.log_sets
            &&& m1.current_item == m0.current_item
            &&& m1.mode == AppMode::Search
            &&& m1.filter == m0.filter
        },
        Message::SubmitSearch => {
            &&& m1.running_state == m0.running_state
            &&& m1.log_sets == m0.log_sets
            &&& m1.current_item == m0.current_item
            &&& m1.mode == AppMode::Normal
            &&& m1.filter == m0.filter
        },
        Message::SearchKey(c) => {
            &&& m1.running_state == m0.running_state
            &&& m1.log_sets == m0.log_sets
            &&& m1.filter@ == m0.filter@.push(c)
            &&& m1.current_item == revalidated(m0.current_item, m1.visible().len() as int)
            &&& m1.mode == m0.mode
        },
        Message::SearchBackspace => {
            &&& m1.running_state == m0.running_state
            &&& m1.log_sets == m0.log_sets
            &&& m1.filter@ == (if m0.filter@.len() == 0 {
                m0.filter@
            } else {
                m0.filter@.drop_last()
            })
            &&& m1.current_item == (if m1.visible().len() > 0 {
                Some(0usize)
            } else {
                None::<usize>
            })
            &&& m1.mode == m0.mode
        },
    }
}

/// Relies on String::push: appends exactly the one character at the end.
#[verifier::external_body]
fn push_char(s: &mut String, c: char)
    ensures
        final(s)@ == old(s)@.push(c),
{
    s.push(c);
}

/// Relies on String::pop: removes and returns the last character, and does
/// nothing on an empty string.
#[verifier::external_body]
fn pop_char(s: &mut String) -> (r: Option<char>)
    ensures
        old(s)@.len() == 0 ==> final(s)@ == old(s)@ && r is None,
        old(s)@.len() > 0 ==> final(s)@ == old(s)@.drop_last() && r == Some(old(s)@.last()),
{
    s.pop()
}

/// Applies one message to the session. Navigation clamps at the ends, filter
/// edits revalidate the selection against the new visible sets, and no
/// message can leave the selection out of range.
pub fn update(model: &mut Model, msg: Message) -> (r: Option<Message>)
    requires
        old(model).wf(),
    ensures
        final(model).wf(),
        transition(*old(model), *final(model), msg),
        r is None,
{
    match msg {
        Message::Quit => {
            model.running_state = RunningState::Done;
        },
        Message::NextSet => {
            let n = model.visible_len();
            match model.current_item {
                Some(i) => {
                    if i + 1 < n {
                        model.current_item = Some(i + 1);
                    }
                },
                None => {},
            }
        },
        Message::PrevSet => {
            match model.current_item {
                Some(i) => {
                    if i > 0 {
                        model.current_item = Some(i - 1);
                    }
                },
                None => {},
            }
        },
        Message::GoSearch => {
            model.mode = AppMode::Search;
        },
        Message::SubmitSearch => {
            model.mode = AppMode::Normal;
        },
        Message::SearchKey(c) => {
            push_char(&mut model.filter, c);
            let n = model.visible_len();
            if n == 0 {
                model.current_item = None;
            } else {
                match model.current_item {
                    None => {
                        model.current_item = Some(0);
                    },
                    Some(i) => {
                        if i >= n {
                            model.current_item = Some(n - 1);
                        }
                    },
                }
            }
        },
        Message::SearchBackspace => {
            let _ = pop_char(&mut model.filter);
            let n = model.visible_len();
            if n == 0 {
                model.current_item = None;
            } else {
                model.current_item = Some(0);
            }
        },
    }
    None
}

/// What a key means in normal mode.
pub open spec fn normal_message(key: Key) -> Option<Message> {
    match key {
        Key::Char(c) => if c == 'j' {
            Some(Message::NextSet)
        } else if c == 'k' {
            Some(Message::PrevSet)
        } else if c == 'q' {
            Some(Message::Quit)
        } else if c == '/' {
            Some(Message::GoSearch)
        } else {
            None
        },
        _ => None,
    }
}

/// What a key means in search mode.
pub open spec fn search_message(key: Key) -> Option<Message> {
    match key {
        Key::Enter => Some(Message::SubmitSearch),
        Key::Char(c) => Some(Message::SearchKey(c)),
        Key::Backspace => Some(Message::SearchBackspace),
        Key::Other => None,
    }
}

/// Translates a key pressed in normal mode.
pub fn handle_key(key: Key) -> (r: Option<Message>)
    ensures
        r == normal_message(key),
{
    match key {
        Key::Char(c) => {
            if c == 'j' {
                Some(Message::NextSet)
            } else if c == 'k' {
                Some(Message::PrevSet)
            } else if c == 'q' {
                Some(Message::Quit)
            } else if c == '/' {
                Some(Message::GoSearch)
            } else {
                None
            }
        },
        _ => None,
    }
}

/// Translates a key pressed in search mode.
pub fn handle_search(key: Key) -> (r: Option<Message>)
    ensures
        r == search_message(key),
{
    match key {
        Key::Enter => Some(Message::SubmitSearch),
        Key::Char(c) => Some(Message::SearchKey(c)),
        Key::Backspace => Some(Message::SearchBackspace),
        Key::Other => None,
    }
}

/// Mode-aware key dispatch: which message, if any, a key press yields.
pub fn handle_event(mode: &AppMode, key: Key) -> (r: Option<Message>)
    ensures
        r == (match *mode {
            AppMode::Normal => normal_message(key),
            AppMode::Search => search_message(key),
        }),
{
    match mode {
        AppMode::Normal => handle_key(key),
        AppMode::Search => handle_search(key),
    }
}

} // verus!
