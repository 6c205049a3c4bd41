use vstd::prelude::*;

use crate::parse::LineV;
use crate::session::{visible_pred, Model};

verus! {

/// What `textwrap::wrap` returns for this text, width and indent pair.
pub uninterp spec fn wrap_of(
    text: Seq<char>,
    width: nat,
    first_indent: Seq<char>,
    rest_indent: Seq<char>,
) -> Seq<Seq<char>>;

/// Relies on textwrap::wrap: wraps one line of text to the given width with
/// the given first-line and continuation indents; the result depends on
/// those arguments alone.
#[verifier::external_body]
fn wrap_line(text: &str, width: usize, first_indent: &str, rest_indent: &str) -> (r: Vec<String>)
    ensures
        r.deep_view() == wrap_of(text@, width as nat, first_indent@, rest_indent@),
{
    let options = textwrap::Options::new(width)
        .initial_indent(first_indent)
        .subsequent_indent(rest_indent);
    textwrap::wrap(text, &options).into_iter().map(|c| c.into_owned()).collect()
}

/// The indent put before continuation lines in the detail pane.
pub open spec fn detail_indent() -> Seq<char> {
    Seq::new(8, |i: int| ' ')
}

/// How one log line is wrapped for the detail pane.
pub open spec fn wrapped_line(l: LineV, width: nat) -> Seq<Seq<char>> {
    wrap_of(l.text, width, Seq::<char>::empty(), detail_indent())
}

/// What the detail pane shows: the lines of the selected set, each wrapped
/// to the pane width, concatenated; nothing when nothing is selected.
pub open spec fn detail_of(m: Model, width: nat) -> Seq<Seq<char>> {
    match m.current_item {
        None => Seq::empty(),
        Some(i) => m.visible()[i as int].map_values(|l: LineV| wrapped_line(l, width)).flatten(),
    }
}

impl Model {
    /// The master-list entries: the raw text of each visible set's first line.
    pub fn list_items(&self) -> (r: Vec<String>)
        requires
            self.wf(),
        ensures
            r.deep_view() == self.visible().map_values(|g: Seq<LineV>| g[0].text),
    {
        let fs = self.filtered_log_sets();
        let ghost vis = self.visible();
        let ghost f = |g: Seq<LineV>| g[0].text;
        let mut out: Vec<String> = Vec::new();
        let mut k: usize = 0;
        proof {
            assert(fs.deep_view().len() == fs@.len());
            assert(out.deep_view() =~= vis.take(0).map_values(f));
        }
        while k < fs.len()
            invariant
                k <= fs@.len(),
                vis == self.visible(),
                fs.deep_view() == vis,
                fs.deep_view().len() == fs@.len(),
                f == (|g: Seq<LineV>| g[0].text),
                out.deep_view() == vis.take(k as int).map_values(f),
            decreases fs@.len() - k,
        {
            proof {
                self.log_sets.deep_view().lemma_filter_pred(
                    visible_pred(self.filter@),
                    k as int,
                );
                assert(vis[k as int].len() > 0);
                assert(fs.deep_view()[k as int] == fs@[k as int].deep_view());
                assert(fs@[k as int].lines@[0]@ == vis[k as int][0]);
            }
            let g = fs[k];
            let ghost out0 = out.deep_view();
            out.push(g.lines[0].text.clone());
            proof {
                assert(out.deep_view() =~= out0.push(vis[k as int][0].text));
                assert(vis.take(k + 1).map_values(f) =~= vis.take(k as int).map_values(f).push(
                    f(vis[k as int]),
                ));
            }
            k = k + 1;
        }
        proof {
            assert(vis.take(k as int) =~= vis);
        }
        out
    }

    /// The detail-pane entries: the selected set's lines, each word-wrapped
    /// to the pane width with an eight-space continuation indent.
    pub fn detail_lines(&self, width: usize) -> (r: Vec<String>)
        requires
            self.wf(),
        ensures
            r.deep_view() == detail_of(*self, width as nat),
    {
        let ghost w = |l: LineV| wrapped_line(l, width as nat);
        match self.current_lines() {
            None => {
                let out: Vec<String> = Vec::new();
                proof {
                    assert(out.deep_view() =~= Seq::<Seq<char>>::empty());
                }
                out
            },
            Some(lines) => {
                let ghost lv = lines.deep_view();
                let mut out: Vec<String> = Vec::new();
                let mut k: usize = 0;
                proof {
                    assert(lv.take(0).map_values(w) =~= Seq::<Seq<Seq<char>>>::empty());
                    assert(Seq::<Seq<Seq<char>>>::empty().flatten() =~= Seq::<Seq<char>>::empty());
                    assert(out.deep_view() =~= lv.take(0).map_values(w).flatten());
                }
                while k < lines.len()
                    invariant
                        k <= lines@.len(),
                        lv == lines.deep_view(),
                        lv.len() == lines@.len(),
                        w == (|l: LineV| wrapped_line(l, width as nat)),
                        out.deep_view() == lv.take(k as int).map_values(w).flatten(),
                    decreases lines@.len() - k,
                {
                    proof {
                        reveal_strlit("");
                        reveal_strlit("        ");
                    }
                    let mut piece = wrap_line(lines[k].text.as_str(), width, "", "        ");
                    proof {
                        assert(""@ =~= Seq::<char>::empty());
                        assert("        "@ =~= detail_indent());
                        assert(lines@[k as int]@.text == lv[k as int].text);
                        assert(piece.deep_view() == wrapped_line(lv[k as int], width as nat));
                    }
                    let ghost out0 = out.deep_view();
                    let ghost piece0 = piece.deep_view();
                    out.append(&mut piece);
                    proof {
                        assert(out.deep_view() =~= out0 + piece0);
                        assert(lv.take(k + 1).map_values(w) =~= lv.take(k as int).map_values(
                            w,
                        ).push(w(lv[k as int])));
                        lv.take(k as int).map_values(w).lemma_flatten_push(w(lv[k as int]));
                    }
                    k = k + 1;
                }
                proof {
                    assert(lv.take(k as int) =~= lv);
                }
                out
            },
        }
    }
}

} // verus!
