use vstd::prelude::*;

use crate::parse::{has_token, line_of, Line, LineV};
use crate::text::{lemma_lex_le_total, lemma_lex_le_trans, lex_le, str_le};

verus! {

/// All log lines sharing one correlation id, in file arrival order.
pub struct LogSet {
    pub lines: Vec<Line>,
}

impl View for LogSet {
    type V = Seq<LineV>;

    open spec fn view(&self) -> Seq<LineV> {
        self.lines.deep_view()
    }
}

impl DeepView for LogSet {
    type V = Seq<LineV>;

    open spec fn deep_view(&self) -> Seq<LineV> {
        self@
    }
}

impl LogSet {
    pub fn from_lines(lines: Vec<Line>) -> (r: Self)
        ensures
            r@ == lines.deep_view(),
    {
        LogSet { lines }
    }
}

/// The records that parsing yields from the raw lines, in file order, with
/// the lines that fail to parse silently skipped.
pub open spec fn parsed_of(raws: Seq<Seq<char>>) -> Seq<LineV>
    decreases raws.len(),
{
    if raws.len() == 0 {
        Seq::empty()
    } else if has_token(raws.last()) {
        parsed_of(raws.drop_last()).push(line_of(raws.last()))
    } else {
        parsed_of(raws.drop_last())
    }
}

/// The subsequence of `p` carrying the correlation id `u`, order preserved.
pub open spec fn group_for(p: Seq<LineV>, u: Seq<char>) -> Seq<LineV> {
    p.filter(|l: LineV| l.uuid == u)
}

/// Sets are ordered by the timestamp of their first line.
pub open spec fn sorted_sets(gs: Seq<Seq<LineV>>) -> bool {
    forall|k1: int, k2: int|
        0 <= k1 <= k2 < gs.len() ==> #[trigger] lex_le(gs[k1][0].time, gs[k2][0].time)
}

/// Some set in `gs` carries the correlation id `u`.
pub open spec fn has_set_for(gs: Seq<Seq<LineV>>, u: Seq<char>) -> bool {
    exists|k: int| 0 <= k < gs.len() && #[trigger] gs[k][0].uuid == u
}

/// `gs` is a grouping of the parsed records `p`: every set is non-empty and
/// is exactly the subsequence of `p` carrying its id, ids are not repeated,
/// and every parsed record's id has its set.
pub open spec fn grouping_of(p: Seq<LineV>, gs: Seq<Seq<LineV>>) -> bool {
    &&& forall|k: int| 0 <= k < gs.len() ==> #[trigger] gs[k].len() > 0
    &&& forall|k: int| 0 <= k < gs.len() ==> #[trigger] gs[k] == group_for(p, gs[k][0].uuid)
    &&& forall|k1: int, k2: int|
        0 <= k1 < k2 < gs.len() ==> #[trigger] gs[k1][0].uuid != #[trigger] gs[k2][0].uuid
    &&& forall|j: int| #![trigger p[j].uuid] 0 <= j < p.len() ==> has_set_for(gs, p[j].uuid)
}

/// Appending an element to a sequence extends its filtered subsequence by
/// that element exactly when the element satisfies the predicate.
pub proof fn lemma_filter_push<A>(s: Seq<A>, pred: spec_fn(A) -> bool, x: A)
    ensures
        pred(x) ==> s.push(x).filter(pred) == s.filter(pred).push(x),
        !pred(x) ==> s.push(x).filter(pred) == s.filter(pred),
{
    reveal(Seq::filter);
    assert(s.push(x).drop_last() =~= s);
    assert(s.push(x).last() == x);
    if pred(x) {
        assert(s.push(x).filter(pred) =~= s.filter(pred).push(x));
    } else {
        assert(s.push(x).filter(pred) =~= s.filter(pred));
    }
}

/// A sequence none of whose elements satisfies the predicate filters to the
/// empty sequence.
pub proof fn lemma_filter_none<A>(s: Seq<A>, pred: spec_fn(A) -> bool)
    requires
        forall|i: int| 0 <= i < s.len() ==> !pred(#[trigger] s[i]),
    ensures
        s.filter(pred) == Seq::<A>::empty(),
    decreases s.len(),
{
    reveal(Seq::filter);
    if s.len() != 0 {
        assert(forall|i: int|
            0 <= i < s.drop_last().len() ==> !pred(#[trigger] s.drop_last()[i]));
        lemma_filter_none(s.drop_last(), pred);
        assert(!pred(s.last()));
        assert(s.filter(pred) =~= Seq::<A>::empty());
    } else {
        assert(s.filter(pred) =~= Seq::<A>::empty());
    }
}

/// A sequence all of whose elements satisfy the predicate filters to itself.
pub proof fn lemma_filter_all<A>(s: Seq<A>, pred: spec_fn(A) -> bool)
    requires
        forall|i: int| 0 <= i < s.len() ==> pred(#[trigger] s[i]),
    ensures
        s.filter(pred) == s,
    decreases s.len(),
{
    reveal(Seq::filter);
    if s.len() != 0 {
        assert(forall|i: int|
            0 <= i < s.drop_last().len() ==> pred(#[trigger] s.drop_last()[i]));
        lemma_filter_all(s.drop_last(), pred);
        assert(pred(s.last()));
        assert(s.filter(pred) =~= s);
    } else {
        assert(s.filter(pred) =~= s);
    }
}

/// Filtering keeps exactly the occurrences of an element that satisfies the
/// predicate, and drops every element that does not.
pub proof fn lemma_filter_count<A>(s: Seq<A>, pred: spec_fn(A) -> bool, x: A)
    ensures
        pred(x) ==> s.filter(pred).to_multiset().count(x) == s.to_multiset().count(x),
        !pred(x) ==> s.filter(pred).to_multiset().count(x) == 0,
    decreases s.len(),
{
    reveal(Seq::filter);
    broadcast use vstd::seq_lib::group_to_multiset_ensures;

    if s.len() == 0 {
        assert(s.filter(pred) =~= Seq::<A>::empty());
        assert(!s.contains(x));
        assert(!s.filter(pred).contains(x));
    } else {
        let s0 = s.drop_last();
        let a = s.last();
        lemma_filter_count(s0, pred, x);
        assert(s =~= s0.push(a));
        assert(s0.push(a).to_multiset() =~= s0.to_multiset().insert(a));
        if pred(a) {
            assert(s.filter(pred) =~= s0.filter(pred).push(a));
            assert(s0.filter(pred).push(a).to_multiset() =~= s0.filter(pred).to_multiset().insert(
                a,
            ));
        } else {
            assert(s.filter(pred) =~= s0.filter(pred));
        }
    }
}

/// Grouping completeness: a parsed record lands in the set carrying its id,
/// exactly as often as it occurs among the parsed records, and in no other
/// set.
pub proof fn lemma_grouping_completeness(p: Seq<LineV>, gs: Seq<Seq<LineV>>, j: int)
    requires
        grouping_of(p, gs),
        0 <= j < p.len(),
    ensures
        p.to_multiset().count(p[j]) >= 1,
        exists|k: int|
            0 <= k < gs.len() && #[trigger] gs[k][0].uuid == p[j].uuid
                && gs[k].to_multiset().count(p[j]) == p.to_multiset().count(p[j]),
        forall|k: int|
            0 <= k < gs.len() && gs[k][0].uuid != p[j].uuid
                ==> #[trigger] gs[k].to_multiset().count(p[j]) == 0,
{
    broadcast use vstd::seq_lib::group_to_multiset_ensures;

    let l = p[j];
    assert(p.contains(l));
    assert(p.to_multiset().count(l) > 0);
    assert(has_set_for(gs, l.uuid));
    let k = choose|k: int| 0 <= k < gs.len() && #[trigger] gs[k][0].uuid == l.uuid;
    assert(gs[k] == group_for(p, gs[k][0].uuid));
    lemma_filter_count(p, |x: LineV| x.uuid == gs[k][0].uuid, l);
    assert(gs[k].to_multiset().count(l) == p.to_multiset().count(l));
    assert forall|k2: int|
        0 <= k2 < gs.len() && gs[k2][0].uuid != l.uuid implies #[trigger] gs[k2].to_multiset().count(
        l,
    ) == 0 by {
        lemma_filter_count(p, |x: LineV| x.uuid == gs[k2][0].uuid, l);
    }
}

/// Two elements that both satisfy the predicate keep their relative order in
/// the filtered subsequence.
pub proof fn lemma_filter_order<A>(s: Seq<A>, pred: spec_fn(A) -> bool, i1: int, i2: int)
    requires
        0 <= i1 < i2 < s.len(),
        pred(s[i1]),
        pred(s[i2]),
    ensures
        exists|q1: int, q2: int|
            0 <= q1 < q2 < s.filter(pred).len() && #[trigger] s.filter(pred)[q1] == s[i1]
                && #[trigger] s.filter(pred)[q2] == s[i2],
{
    reveal(Seq::filter);
    let a = s.take(i1 + 1);
    let b = s.subrange(i1 + 1, i2 + 1);
    let c = s.skip(i2 + 1);
    assert(s =~= (a + b) + c);
    Seq::filter_distributes_over_add(a, b, pred);
    Seq::filter_distributes_over_add(a + b, c, pred);
    assert(a.drop_last() =~= s.take(i1));
    assert(a.last() == s[i1]);
    assert(a.filter(pred) == s.take(i1).filter(pred).push(s[i1]));
    assert(b.drop_last() =~= s.subrange(i1 + 1, i2));
    assert(b.last() == s[i2]);
    assert(b.filter(pred) == s.subrange(i1 + 1, i2).filter(pred).push(s[i2]));
    let q1 = a.filter(pred).len() - 1;
    let q2 = a.filter(pred).len() + b.filter(pred).len() - 1;
    assert(s.filter(pred) == (a + b).filter(pred) + c.filter(pred));
    assert((a + b).filter(pred) == a.filter(pred) + b.filter(pred));
    assert(s.filter(pred)[q1] == s[i1]);
    assert(s.filter(pred)[q2] == s[i2]);
}

/// Order within a set is stable: two parsed records carrying a set's id
/// appear in that set in their original relative order.
pub proof fn lemma_group_order_stable(
    p: Seq<LineV>,
    gs: Seq<Seq<LineV>>,
    k: int,
    i1: int,
    i2: int,
)
    requires
        grouping_of(p, gs),
        0 <= k < gs.len(),
        0 <= i1 < i2 < p.len(),
        p[i1].uuid == gs[k][0].uuid,
        p[i2].uuid == gs[k][0].uuid,
    ensures
        exists|q1: int, q2: int|
            0 <= q1 < q2 < gs[k].len() && #[trigger] gs[k][q1] == p[i1] && #[trigger] gs[k][q2]
                == p[i2],
{
    assert(gs[k] == group_for(p, gs[k][0].uuid));
    lemma_filter_order(p, |x: LineV| x.uuid == gs[k][0].uuid, i1, i2);
}

/// Finds the set holding the given correlation id, if one exists.
fn find_group(gs: &Vec<LogSet>, uuid: &String) -> (r: Option<usize>)
    requires
        forall|k: int| 0 <= k < gs.deep_view().len() ==> #[trigger] gs.deep_view()[k].len() > 0,
    ensures
        match r {
            Some(k) => k < gs@.len() && gs.deep_view()[k as int][0].uuid == uuid@,
            None => forall|k: int|
                0 <= k < gs@.len() ==> #[trigger] gs.deep_view()[k][0].uuid != uuid@,
        },
{
    let mut k: usize = 0;
    while k < gs.len()
        invariant
            k <= gs@.len(),
            gs.deep_view().len() == gs@.len(),
            forall|m: int| 0 <= m < gs.deep_view().len() ==> #[trigger] gs.deep_view()[m].len() > 0,
            forall|m: int| 0 <= m < k ==> #[trigger] gs.deep_view()[m][0].uuid != uuid@,
        decreases gs@.len() - k,
    {
        proof {
            assert(gs.deep_view()[k as int] == gs@[k as int]@);
            assert(gs@[k as int]@[0] == gs@[k as int].lines@[0]@);
        }
        if gs[k].lines[0].uuid == *uuid {
            return Some(k);
        }
        k = k + 1;
    }
    None
}

/// Finds the position at which a set with first-line timestamp `t` keeps the
/// sequence of sets ordered.
fn find_insert_pos(gs: &Vec<LogSet>, t: &String) -> (j: usize)
    requires
        forall|k: int| 0 <= k < gs.deep_view().len() ==> #[trigger] gs.deep_view()[k].len() > 0,
        sorted_sets(gs.deep_view()),
    ensures
        j <= gs@.len(),
        forall|k: int| 0 <= k < j ==> #[trigger] lex_le(gs.deep_view()[k][0].time, t@),
        forall|k: int| j <= k < gs@.len() ==> #[trigger] lex_le(t@, gs.deep_view()[k][0].time),
{
    let mut j: usize = 0;
    while j < gs.len()
        invariant
            j <= gs@.len(),
            gs.deep_view().len() == gs@.len(),
            forall|k: int| 0 <= k < gs.deep_view().len() ==> #[trigger] gs.deep_view()[k].len() > 0,
            sorted_sets(gs.deep_view()),
            forall|k: int| 0 <= k < j ==> #[trigger] lex_le(gs.deep_view()[k][0].time, t@),
        decreases gs@.len() - j,
    {
        proof {
            assert(gs.deep_view()[j as int] == gs@[j as int]@);
            assert(gs@[j as int]@[0] == gs@[j as int].lines@[0]@);
        }
        if !str_le(gs[j].lines[0].time.as_str(), t.as_str()) {
            proof {
                lemma_lex_le_total(gs.deep_view()[j as int][0].time, t@);
                assert forall|k: int| j <= k < gs@.len() implies #[trigger] lex_le(
                    t@,
                    gs.deep_view()[k][0].time,
                ) by {
                    lemma_lex_le_trans(
                        t@,
                        gs.deep_view()[j as int][0].time,
                        gs.deep_view()[k][0].time,
                    );
                }
            }
            return j;
        }
        j = j + 1;
    }
    j
}

/// Groups the raw lines by correlation id and orders the sets by the
/// timestamp of their first line. Lines that fail to parse are skipped;
/// within a set, lines keep their arrival order.
pub fn lines(raws: &Vec<String>) -> (r: Vec<LogSet>)
    ensures
        grouping_of(parsed_of(raws.deep_view()), r.deep_view()),
        sorted_sets(r.deep_view()),
{
    let mut gs: Vec<LogSet> = Vec::new();
    let mut idx: usize = 0;
    proof {
        assert(raws.deep_view().take(0) =~= Seq::<Seq<char>>::empty());
    }
    while idx < raws.len()
        invariant
            idx <= raws@.len(),
            raws.deep_view().len() == raws@.len(),
            grouping_of(parsed_of(raws.deep_view().take(idx as int)), gs.deep_view()),
            sorted_sets(gs.deep_view()),
        decreases raws@.len() - idx,
    {
        let ghost rv = raws.deep_view();
        let ghost p0 = parsed_of(rv.take(idx as int));
        let ghost p1 = parsed_of(rv.take(idx + 1));
        proof {
            assert(rv.take(idx + 1).drop_last() =~= rv.take(idx as int));
            assert(rv.take(idx + 1).last() == rv[idx as int]);
            assert(rv[idx as int] == raws@[idx as int]@);
        }
        match Line::from_str(raws[idx].as_str()) {
            Err(_) => {
                proof {
                    assert(p1 == p0);
                    assert forall|j: int| #![trigger p1[j].uuid] 0 <= j < p1.len() implies has_set_for(
                        gs.deep_view(),
                        p1[j].uuid,
                    ) by {
                        assert(p1[j].uuid == p0[j].uuid);
                        assert(has_set_for(gs.deep_view(), p0[j].uuid));
                    }
                    assert(grouping_of(p1, gs.deep_view()));
                }
            },
            Ok(line) => {
                let ghost l = line@;
                proof {
                    assert(p1 == p0.push(l));
                }
                match find_group(&gs, &line.uuid) {
                    Some(k) => {
                        let ghost dv0 = gs.deep_view();
                        let ghost gv0 = dv0[k as int];
                        let mut g = gs.remove(k);
                        proof {
                            assert(g.deep_view() == gv0);
                        }
                        g.lines.push(line);
                        proof {
                            assert(g.deep_view() =~= gv0.push(l));
                        }
                        gs.insert(k, g);
                        proof {
                            let dv1 = gs.deep_view();
                            assert(dv1 =~= dv0.update(k as int, gv0.push(l)));
                            let u = gv0[0].uuid;
                            assert(l.uuid == u);
                            assert forall|k2: int| 0 <= k2 < dv1.len() implies #[trigger] dv1[k2]
                                == group_for(p1, dv1[k2][0].uuid) by {
                                lemma_filter_push(p0, |x: LineV| x.uuid == dv1[k2][0].uuid, l);
                                if k2 == k as int {
                                    assert(dv1[k2] =~= gv0.push(l));
                                } else {
                                    assert(dv0[k2][0].uuid != u);
                                }
                            }
                            assert forall|j: int| #![trigger p1[j].uuid] 0 <= j < p1.len()
                                implies has_set_for(gs.deep_view(), p1[j].uuid) by {
                                if j < p0.len() {
                                    assert(p1[j] == p0[j]);
                                    assert(has_set_for(dv0, p0[j].uuid));
                                    let k2 = choose|k2: int|
                                        0 <= k2 < dv0.len() && #[trigger] dv0[k2][0].uuid
                                            == p0[j].uuid;
                                    assert(gs.deep_view()[k2][0].uuid == p1[j].uuid);
                                } else {
                                    assert(gs.deep_view()[k as int][0].uuid == p1[j].uuid);
                                }
                            }
                            assert(forall|k2: int|
                                0 <= k2 < dv1.len() ==> #[trigger] dv1[k2].len() > 0);
                            assert forall|k1: int, k2: int| 0 <= k1 <= k2 < dv1.len()
                                implies #[trigger] lex_le(dv1[k1][0].time, dv1[k2][0].time) by {
                                assert(dv1[k1][0].time == dv0[k1][0].time);
                                assert(dv1[k2][0].time == dv0[k2][0].time);
                            }
                            assert(forall|k1: int, k2: int|
                                0 <= k1 < k2 < dv1.len() ==> #[trigger] dv1[k1][0].uuid
                                    != #[trigger] dv1[k2][0].uuid);
                            assert(grouping_of(p1, gs.deep_view()));
                            assert(sorted_sets(gs.deep_view()));
                        }
                    },
                    None => {
                        let ghost dv0 = gs.deep_view();
                        let pos = find_insert_pos(&gs, &line.time);
                        let mut lv: Vec<Line> = Vec::new();
                        lv.push(line);
                        let g = LogSet { lines: lv };
                        proof {
                            assert(g.deep_view() =~= seq![l]);
                        }
                        gs.insert(pos, g);
                        proof {
                            let dv1 = gs.deep_view();
                            assert(dv1 =~= dv0.insert(pos as int, seq![l]));
                            assert forall|i: int| 0 <= i < p0.len() implies !(p0[i].uuid
                                == l.uuid) by {
                                if p0[i].uuid == l.uuid {
                                    let k2 = choose|k2: int|
                                        0 <= k2 < dv0.len() && #[trigger] dv0[k2][0].uuid
                                            == p0[i].uuid;
                                }
                            }
                            lemma_filter_none(p0, |x: LineV| x.uuid == l.uuid);
                            lemma_filter_push(p0, |x: LineV| x.uuid == l.uuid, l);
                            assert(group_for(p1, l.uuid) =~= seq![l]);
                            assert forall|k2: int| 0 <= k2 < dv1.len() implies #[trigger] dv1[k2]
                                == group_for(p1, dv1[k2][0].uuid) by {
                                lemma_filter_push(p0, |x: LineV| x.uuid == dv1[k2][0].uuid, l);
                                if k2 < pos as int {
                                    assert(dv1[k2] == dv0[k2]);
                                    assert(dv0[k2][0].uuid != l.uuid);
                                } else if k2 > pos as int {
                                    assert(dv1[k2] == dv0[k2 - 1]);
                                    assert(dv0[k2 - 1][0].uuid != l.uuid);
                                }
                            }
                            assert forall|j: int| #![trigger p1[j].uuid] 0 <= j < p1.len()
                                implies has_set_for(gs.deep_view(), p1[j].uuid) by {
                                if j < p0.len() {
                                    assert(p1[j] == p0[j]);
                                    assert(has_set_for(dv0, p0[j].uuid));
                                    let k2 = choose|k2: int|
                                        0 <= k2 < dv0.len() && #[trigger] dv0[k2][0].uuid
                                            == p0[j].uuid;
                                    if k2 < pos as int {
                                        assert(gs.deep_view()[k2][0].uuid == p1[j].uuid);
                                    } else {
                                        assert(gs.deep_view()[k2 + 1][0].uuid == p1[j].uuid);
                                    }
                                } else {
                                    assert(gs.deep_view()[pos as int][0].uuid == p1[j].uuid);
                                }
                            }
                            assert(forall|k2: int|
                                0 <= k2 < dv1.len() ==> #[trigger] dv1[k2].len() > 0);
                            assert forall|k1: int, k2: int| 0 <= k1 < k2 < dv1.len()
                                implies #[trigger] dv1[k1][0].uuid != #[trigger] dv1[k2][0].uuid by {
                                if k1 == pos as int {
                                    assert(dv1[k2] == dv0[k2 - 1]);
                                } else if k2 == pos as int {
                                    assert(dv1[k1] == dv0[k1]);
                                }
                            }
                            assert forall|k1: int, k2: int| 0 <= k1 <= k2 < dv1.len()
                                implies #[trigger] lex_le(dv1[k1][0].time, dv1[k2][0].time) by {
                                if k1 == pos as int && k2 == pos as int {
                                    lemma_lex_le_total(l.time, l.time);
                                }
                            }
                            assert(grouping_of(p1, gs.deep_view()));
                            assert(sorted_sets(gs.deep_view()));
                        }
                    },
                }
            },
        }
        idx = idx + 1;
    }
    proof {
        assert(raws.deep_view().take(idx as int) =~= raws.deep_view());
    }
    gs
}

} // verus!
