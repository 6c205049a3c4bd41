use vstd::prelude::*;

use crate::text::{is_least, lemma_least_unique};

verus! {

/// One parsed log record: the correlation id, the timestamp token used for
/// ordering, and the raw line kept verbatim for display.
pub struct Line {
    pub uuid: String,
    pub time: String,
    pub text: String,
}

/// The mathematical content of a `Line`.
pub ghost struct LineV {
    pub uuid: Seq<char>,
    pub time: Seq<char>,
    pub text: Seq<char>,
}

impl View for Line {
    type V = LineV;

    open spec fn view(&self) -> LineV {
        LineV { uuid: self.uuid@, time: self.time@, text: self.text@ }
    }
}

impl DeepView for Line {
    type V = LineV;

    open spec fn deep_view(&self) -> LineV {
        self@
    }
}

/// A line that cannot be parsed is reported with this error and skipped.
#[derive(PartialEq, Eq, Structural, Clone, Copy, Debug)]
pub enum ParseError {
    ParseLineError,
}

/// A lowercase hexadecimal digit.
pub open spec fn is_hex_char(c: char) -> bool {
    (('0' as u32) <= (c as u32) && (c as u32) <= ('9' as u32)) || (('a' as u32) <= (c as u32) && (c
        as u32) <= ('f' as u32))
}

/// A correlation-id token starts at `i`: an opening bracket, exactly 32
/// lowercase hex digits, and a closing bracket.
pub open spec fn token_at(s: Seq<char>, i: int) -> bool {
    &&& 0 <= i
    &&& i + 34 <= s.len()
    &&& s[i] == '['
    &&& s[i + 33] == ']'
    &&& forall|j: int| i < j < i + 33 ==> is_hex_char(s[j])
}

/// The line carries a correlation-id token somewhere; exactly these lines
/// parse successfully.
pub open spec fn has_token(s: Seq<char>) -> bool {
    exists|i: int| token_at(s, i)
}

pub open spec fn token_pred(s: Seq<char>) -> spec_fn(int) -> bool {
    |i: int| token_at(s, i)
}

/// Start of the leftmost correlation-id token.
pub open spec fn token_start(s: Seq<char>) -> int {
    choose|m: int| is_least(token_pred(s), m)
}

/// The correlation id: the 32 hex digits of the leftmost token.
pub open spec fn uuid_of(s: Seq<char>) -> Seq<char> {
    s.subrange(token_start(s) + 1, token_start(s) + 33)
}

pub open spec fn open_pred(s: Seq<char>) -> spec_fn(int) -> bool {
    |i: int| 0 <= i < s.len() && s[i] == '['
}

/// Position of the first opening bracket of the line.
pub open spec fn open_start(s: Seq<char>) -> int {
    choose|m: int| is_least(open_pred(s), m)
}

pub open spec fn time_end_pred(s: Seq<char>) -> spec_fn(int) -> bool {
    |j: int| open_start(s) < j < s.len() && (s[j] == '[' || s[j] == ' ')
}

/// End of the timestamp token: the first space or opening bracket after the
/// first opening bracket, or the end of the line.
pub open spec fn time_end(s: Seq<char>) -> int {
    if exists|m: int| is_least(time_end_pred(s), m) {
        choose|m: int| is_least(time_end_pred(s), m)
    } else {
        s.len() as int
    }
}

/// The timestamp token: what follows the first opening bracket, up to the
/// next space or opening bracket.
pub open spec fn time_of(s: Seq<char>) -> Seq<char> {
    s.subrange(open_start(s) + 1, time_end(s))
}

/// The record that parsing a line with a correlation-id token yields.
pub open spec fn line_of(s: Seq<char>) -> LineV {
    LineV { uuid: uuid_of(s), time: time_of(s), text: s }
}

/// Decides `token_at` for one position.
fn check_token_at(s: &str, i: usize) -> (r: bool)
    requires
        i + 34 <= s@.len(),
    ensures
        r == token_at(s@, i as int),
{
    let n = s.unicode_len();
    if s.get_char(i) != '[' {
        return false;
    }
    if s.get_char(i + 33) != ']' {
        return false;
    }
    let mut j: usize = 1;
    while j < 33
        invariant
            n == s@.len(),
            i + 34 <= n,
            1 <= j <= 33,
            s@[i as int] == '[',
            s@[i + 33] == ']',
            forall|m: int| i < m < i + j ==> is_hex_char(s@[m]),
        decreases 33 - j,
    {
        let c = s.get_char(i + j);
        let cu = c as u32;
        if !((('0' as u32) <= cu && cu <= ('9' as u32)) || (('a' as u32) <= cu && cu <= ('f'
            as u32))) {
            proof {
                assert(!is_hex_char(s@[i + j]));
            }
            return false;
        }
        j = j + 1;
    }
    true
}

/// Finds the leftmost correlation-id token, if any.
fn find_token(s: &str) -> (r: Option<usize>)
    ensures
        match r {
            Some(i) => is_least(token_pred(s@), i as int),
            None => !has_token(s@),
        },
{
    let n = s.unicode_len();
    if n < 34 {
        return None;
    }
    let mut i: usize = 0;
    while i <= n - 34
        invariant
            n == s@.len(),
            34 <= n,
            i <= n - 33,
            forall|k: int| 0 <= k < i ==> !token_at(s@, k),
        decreases n - i,
    {
        if check_token_at(s, i) {
            return Some(i);
        }
        i = i + 1;
    }
    None
}

/// Finds the first opening bracket; one exists wherever a token does.
fn find_open(s: &str, t: usize) -> (r: usize)
    requires
        t < s@.len(),
        s@[t as int] == '[',
    ensures
        is_least(open_pred(s@), r as int),
{
    let mut j: usize = 0;
    loop
        invariant
            j <= t,
            t < s@.len(),
            s@[t as int] == '[',
            forall|m: int| 0 <= m < j ==> s@[m] != '[',
        decreases t - j,
    {
        if s.get_char(j) == '[' {
            return j;
        }
        j = j + 1;
    }
}

/// Finds where the timestamp token ends: the first space or opening bracket
/// strictly after `b`, or the end of the line.
fn find_time_end(s: &str, b: usize) -> (r: usize)
    requires
        b < s@.len(),
    ensures
        b < r <= s@.len(),
        forall|m: int| b < m < r ==> !(s@[m] == '[' || s@[m] == ' '),
        r < s@.len() ==> (s@[r as int] == '[' || s@[r as int] == ' '),
{
    let n = s.unicode_len();
    let mut j: usize = b + 1;
    while j < n
        invariant
            n == s@.len(),
            b < j <= n,
            forall|m: int| b < m < j ==> !(s@[m] == '[' || s@[m] == ' '),
        decreases n - j,
    {
        let c = s.get_char(j);
        if c == '[' || c == ' ' {
            return j;
        }
        j = j + 1;
    }
    n
}

impl Line {
    /// Parses one raw line. It succeeds exactly when the line carries a
    /// bracketed 32-digit lowercase-hex correlation id; the timestamp is the
    /// first space-delimited token after the line's first opening bracket,
    /// and the raw text is kept unchanged.
    pub fn from_str(s: &str) -> (r: Result<Line, ParseError>)
        ensures
            r is Ok <==> has_token(s@),
            (r matches Ok(l) ==> l@ == line_of(s@)),
            (r matches Err(e) ==> e == ParseError::ParseLineError),
    {
        match find_token(s) {
            None => Err(ParseError::ParseLineError),
            Some(t) => {
                let n = s.unicode_len();
                proof {
                    assert((token_pred(s@))(t as int));
                    assert(has_token(s@));
                    lemma_least_unique(
                        token_pred(s@),
                        t as int,
                        choose|m: int| is_least(token_pred(s@), m),
                    );
                    assert(token_start(s@) == t as int);
                }
                let uuid = s.substring_char(t + 1, t + 33).to_owned();
                let b = find_open(s, t);
                proof {
                    lemma_least_unique(
                        open_pred(s@),
                        b as int,
                        choose|m: int| is_least(open_pred(s@), m),
                    );
                    assert(open_start(s@) == b as int);
                }
                let k = find_time_end(s, b);
                proof {
                    if (k as int) < s@.len() {
                        assert((time_end_pred(s@))(k as int));
                        assert forall|m: int| 0 <= m < k implies !#[trigger] (time_end_pred(s@))(
                            m,
                        ) by {}
                        assert(is_least(time_end_pred(s@), k as int));
                        lemma_least_unique(
                            time_end_pred(s@),
                            k as int,
                            choose|m: int| is_least(time_end_pred(s@), m),
                        );
                    } else {
                        assert forall|m: int| !is_least(time_end_pred(s@), m) by {
                            if is_least(time_end_pred(s@), m) {
                                assert((time_end_pred(s@))(m));
                            }
                        }
                    }
                    assert(time_end(s@) == k as int);
                }
                let time = s.substring_char(b + 1, k).to_owned();
                let text = s.to_owned();
                let line = Line { uuid, time, text };
                proof {
                    assert(line@.uuid =~= uuid_of(s@));
                    assert(line@.time =~= time_of(s@));
                    assert(line@ == line_of(s@));
                }
                Ok(line)
            },
        }
    }
}

} // verus!
