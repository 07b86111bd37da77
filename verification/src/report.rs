//! The grid report as text, as `grid-check` prints it.
use vstd::prelude::*;

use crate::mesh::GridReport;
use crate::text::{decimal, join_spaced, push_decimal};

verus! {

/// `value:count`.
pub open spec fn bin_text(bin: (usize, usize)) -> Seq<char> {
    decimal(bin.0 as nat) + seq![':'] + decimal(bin.1 as nat)
}

/// The bins of a histogram, separated by spaces.
pub open spec fn hist_text(h: Seq<(usize, usize)>) -> Seq<char> {
    join_spaced(h.map_values(|b: (usize, usize)| bin_text(b)))
}

/// The report's text: the grid's counts and degree histogram, then what the dual
/// gave, or that none was supplied.
pub open spec fn report_text(r: GridReport) -> Seq<char> {
    "grid: "@ + decimal(r.points as nat) + " points, "@ + decimal(r.edges as nat) + " edges ("@
        + decimal(r.edges_from_lines as nat) + " from l lines)\n"@
        + "  degree histogram (degree:count): "@ + hist_text(r.degree_histogram@) + "\n"@ + if r.faces_total
        > 0 {
        "dual: "@ + decimal(r.faces_total as nat) + " faces: "@ + decimal(r.faces_matched as nat)
            + " matched, "@ + decimal(r.faces_dropped as nat) + " dropped (outer walls), "@
            + decimal(r.faces_duplicate as nat) + " duplicate, "@ + decimal(r.faces_degenerate as nat)
            + " degenerate\n"@ + "  face size histogram (vertices:count): "@ + hist_text(
            r.face_vertex_histogram@,
        ) + "\n"@ + "  edges without a face: "@ + decimal(r.edges_without_face as nat)
            + "; matched faces without an l edge: "@ + decimal(r.faces_without_line_edge as nat)
    } else {
        "dual: none supplied (legacy grid: dual faces are axis-aligned squares)"@
    }
}

fn push_lit(s: &mut String, lit: &str)
    ensures
        final(s)@ == old(s)@ + lit@,
{
    s.append(lit);
}

fn push_hist(s: &mut String, h: &Vec<(usize, usize)>)
    ensures
        final(s)@ == old(s)@ + hist_text(h@),
{
    let ghost s0 = s@;
    let ghost ts = h@.map_values(|b: (usize, usize)| bin_text(b));
    for k in 0..h.len()
        invariant
            ts == h@.map_values(|b: (usize, usize)| bin_text(b)),
            s@ == s0 + join_spaced(ts.take(k as int)),
    {
        if k > 0 {
            push_lit(s, " ");
        }
        let (v, n) = h[k];
        push_decimal(s, v);
        push_lit(s, ":");
        push_decimal(s, n);
        proof {
            reveal_strlit(" ");
            reveal_strlit(":");
            let t = ts.take(k + 1);
            assert(t.drop_last() =~= ts.take(k as int));
            assert(t.last() == bin_text(h@[k as int]));
            assert(s@ =~= s0 + join_spaced(t));
        }
    }
    assert(ts.take(h@.len() as int) =~= ts);
}

impl GridReport {
    /// The report as text.
    pub fn text(&self) -> (s: String)
        ensures
            s@ == report_text(*self),
    {
        let mut s = String::new();
        push_lit(&mut s, "grid: ");
        push_decimal(&mut s, self.points);
        push_lit(&mut s, " points, ");
        push_decimal(&mut s, self.edges);
        push_lit(&mut s, " edges (");
        push_decimal(&mut s, self.edges_from_lines);
        push_lit(&mut s, " from l lines)\n");
        push_lit(&mut s, "  degree histogram (degree:count): ");
        push_hist(&mut s, &self.degree_histogram);
        push_lit(&mut s, "\n");
        let ghost head = s@;
        if self.has_dual() {
            push_lit(&mut s, "dual: ");
            push_decimal(&mut s, self.faces_total);
            push_lit(&mut s, " faces: ");
            push_decimal(&mut s, self.faces_matched);
            push_lit(&mut s, " matched, ");
            push_decimal(&mut s, self.faces_dropped);
            push_lit(&mut s, " dropped (outer walls), ");
            push_decimal(&mut s, self.faces_duplicate);
            push_lit(&mut s, " duplicate, ");
            push_decimal(&mut s, self.faces_degenerate);
            push_lit(&mut s, " degenerate\n");
            push_lit(&mut s, "  face size histogram (vertices:count): ");
            push_hist(&mut s, &self.face_vertex_histogram);
            push_lit(&mut s, "\n");
            push_lit(&mut s, "  edges without a face: ");
            push_decimal(&mut s, self.edges_without_face);
            push_lit(&mut s, "; matched faces without an l edge: ");
            push_decimal(&mut s, self.faces_without_line_edge);
        } else {
            push_lit(&mut s, "dual: none supplied (legacy grid: dual faces are axis-aligned squares)");
        }
        assert(s@ =~= report_text(*self));
        s
    }
}

} // verus!
