//! Serialisation of a net into the three interchange formats: PNML (XML),
//! LoLA (textual), and DOT.  Every exporter's output is specified exactly
//! as a function of the net's model, so equal nets serialise to identical
//! bytes: the exports are deterministic.

use vstd::prelude::*;
use vstd::string::*;

use crate::petri_net::petri_net::{name_view, NetView, PetriNet};
use crate::util::{dec_u64, push_str, spec_dec};

verus! {

/// The XML escape of one character.
pub open spec fn spec_xml_char(c: char) -> Seq<char> {
    if c == '<' {
        "&lt;"@
    } else if c == '>' {
        "&gt;"@
    } else if c == '&' {
        "&amp;"@
    } else if c == '"' {
        "&quot;"@
    } else if c == '\'' {
        "&apos;"@
    } else {
        seq![c]
    }
}

/// The XML escape of a text.
pub open spec fn spec_xml_escape(s: Seq<char>) -> Seq<char>
    decreases s.len(),
{
    if s.len() == 0 {
        Seq::empty()
    } else {
        spec_xml_escape(s.drop_last()) + spec_xml_char(s.last())
    }
}

fn xml_escape(s: &str) -> (r: String)
    ensures
        r@ == spec_xml_escape(s@),
{
    let n = s.unicode_len();
    let mut out = String::new();
    let mut i: usize = 0;
    while i < n
        invariant
            n == s@.len(),
            i <= n,
            out@ == spec_xml_escape(s@.take(i as int)),
        decreases n - i,
    {
        let c = s.get_char(i);
        if c == '<' {
            out.append("&lt;");
        } else if c == '>' {
            out.append("&gt;");
        } else if c == '&' {
            out.append("&amp;");
        } else if c == '"' {
            out.append("&quot;");
        } else if c == '\'' {
            out.append("&apos;");
        } else {
            let piece = s.substring_char(i, i + 1);
            proof {
                assert(piece@ =~= seq![s@[i as int]]);
            }
            out.append(piece);
        }
        proof {
            let t1 = s@.take(i + 1);
            assert(t1.drop_last() =~= s@.take(i as int));
            assert(t1.last() == s@[i as int]);
            assert(out@ =~= spec_xml_escape(t1));
        }
        i = i + 1;
    }
    proof {
        assert(s@.take(n as int) =~= s@);
    }
    out
}

/// One PNML place element.
pub open spec fn spec_pnml_place(v: NetView, i: int) -> Seq<char> {
    "<place id=\"p"@ + spec_dec(i) + "\">"@ + (match v.place_names[i] {
        Some(nm) => "<name><text>"@ + spec_xml_escape(nm) + "</text></name>"@,
        None => Seq::<char>::empty(),
    }) + (if v.marking[i] > 0 {
        "<initialMarking><text>"@ + spec_dec(v.marking[i] as int) + "</text></initialMarking>"@
    } else {
        Seq::<char>::empty()
    }) + "</place>\n"@
}

/// The place elements up to index `n`.
pub open spec fn spec_pnml_places(v: NetView, n: int) -> Seq<char>
    decreases n,
{
    if n <= 0 {
        Seq::empty()
    } else {
        spec_pnml_places(v, n - 1) + spec_pnml_place(v, n - 1)
    }
}

/// One PNML transition element.
pub open spec fn spec_pnml_transition(v: NetView, i: int) -> Seq<char> {
    "<transition id=\"t"@ + spec_dec(i) + "\">"@ + (match v.trans_names[i] {
        Some(nm) => "<name><text>"@ + spec_xml_escape(nm) + "</text></name>"@,
        None => Seq::<char>::empty(),
    }) + "</transition>\n"@
}

/// The transition elements up to index `n`.
pub open spec fn spec_pnml_transitions(v: NetView, n: int) -> Seq<char>
    decreases n,
{
    if n <= 0 {
        Seq::empty()
    } else {
        spec_pnml_transitions(v, n - 1) + spec_pnml_transition(v, n - 1)
    }
}

/// One place-to-transition arc element.
pub open spec fn spec_pnml_arc_pt(p: int, t: int) -> Seq<char> {
    "<arc id=\"ap"@ + spec_dec(p) + "t"@ + spec_dec(t) + "\" source=\"p"@ + spec_dec(p)
        + "\" target=\"t"@ + spec_dec(t) + "\"/>\n"@
}

/// One transition-to-place arc element.
pub open spec fn spec_pnml_arc_tp(t: int, p: int) -> Seq<char> {
    "<arc id=\"at"@ + spec_dec(t) + "p"@ + spec_dec(p) + "\" source=\"t"@ + spec_dec(t)
        + "\" target=\"p"@ + spec_dec(p) + "\"/>\n"@
}

/// The arc elements of one place's adjacency row, up to entry `j`.
pub open spec fn spec_pnml_row_pt(v: NetView, p: int, j: int) -> Seq<char>
    decreases j,
{
    if j <= 0 {
        Seq::empty()
    } else {
        spec_pnml_row_pt(v, p, j - 1) + spec_pnml_arc_pt(p, v.pt[p][j - 1] as int)
    }
}

/// The place-to-transition arc elements of the rows up to `p`.
pub open spec fn spec_pnml_arcs_pt(v: NetView, p: int) -> Seq<char>
    decreases p,
{
    if p <= 0 {
        Seq::empty()
    } else {
        spec_pnml_arcs_pt(v, p - 1) + spec_pnml_row_pt(v, p - 1, v.pt[p - 1].len() as int)
    }
}

/// The arc elements of one transition's adjacency row, up to entry `j`.
pub open spec fn spec_pnml_row_tp(v: NetView, t: int, j: int) -> Seq<char>
    decreases j,
{
    if j <= 0 {
        Seq::empty()
    } else {
        spec_pnml_row_tp(v, t, j - 1) + spec_pnml_arc_tp(t, v.tp[t][j - 1] as int)
    }
}

/// The transition-to-place arc elements of the rows up to `t`.
pub open spec fn spec_pnml_arcs_tp(v: NetView, t: int) -> Seq<char>
    decreases t,
{
    if t <= 0 {
        Seq::empty()
    } else {
        spec_pnml_arcs_tp(v, t - 1) + spec_pnml_row_tp(v, t - 1, v.tp[t - 1].len() as int)
    }
}

/// The whole PNML document of a net.
pub open spec fn spec_pnml(v: NetView) -> Seq<char> {
    "<?xml version=\"1.0\" encoding=\"UTF-8\"?>\n<pnml>\n<net id=\"net0\">\n"@
        + spec_pnml_places(v, v.n_places() as int) + spec_pnml_transitions(
        v,
        v.n_transitions() as int,
    ) + spec_pnml_arcs_pt(v, v.n_places() as int) + spec_pnml_arcs_tp(
        v,
        v.n_transitions() as int,
    ) + "</net>\n</pnml>\n"@
}

impl PetriNet {
    fn pnml_place_elem(&self, i: usize) -> (r: String)
        requires
            self@.wf(),
            i < self@.n_places(),
        ensures
            r@ == spec_pnml_place(self@, i as int),
    {
        let ghost v = self@;
        let mut out = String::from_str("<place id=\"p");
        push_str(&mut out, dec_u64(i as u64).as_str());
        push_str(&mut out, "\">");
        match self.place_name(i) {
            Some(nm) => {
                proof {
                    assert(v.place_names[i as int] == Some(nm@));
                }
                push_str(&mut out, "<name><text>");
                let esc = xml_escape(nm.as_str());
                push_str(&mut out, esc.as_str());
                push_str(&mut out, "</text></name>");
            },
            None => {
                proof {
                    assert(v.place_names[i as int] is None);
                }
            },
        }
        let m = self.marking_at(i);
        if m > 0 {
            push_str(&mut out, "<initialMarking><text>");
            push_str(&mut out, dec_u64(m).as_str());
            push_str(&mut out, "</text></initialMarking>");
        }
        push_str(&mut out, "</place>\n");
        proof {
            assert(out@ =~= spec_pnml_place(v, i as int));
        }
        out
    }

    fn pnml_transition_elem(&self, i: usize) -> (r: String)
        requires
            self@.wf(),
            i < self@.n_transitions(),
        ensures
            r@ == spec_pnml_transition(self@, i as int),
    {
        let ghost v = self@;
        let mut out = String::from_str("<transition id=\"t");
        push_str(&mut out, dec_u64(i as u64).as_str());
        push_str(&mut out, "\">");
        match self.transition_name(i) {
            Some(nm) => {
                proof {
                    assert(v.trans_names[i as int] == Some(nm@));
                }
                push_str(&mut out, "<name><text>");
                let esc = xml_escape(nm.as_str());
                push_str(&mut out, esc.as_str());
                push_str(&mut out, "</text></name>");
            },
            None => {
                proof {
                    assert(v.trans_names[i as int] is None);
                }
            },
        }
        push_str(&mut out, "</transition>\n");
        proof {
            assert(out@ =~= spec_pnml_transition(v, i as int));
        }
        out
    }
}

impl PetriNet {
    /// Serialise the net as a PNML document.  The output is a function of
    /// the net's model alone, hence byte-identical across runs.
    #[verifier::rlimit(60)]
    pub fn to_pnml(&self) -> (r: String)
        requires
            self@.wf(),
        ensures
            r@ == spec_pnml(self@),
    {
        let ghost v = self@;
        let mut out = String::from_str("<?xml version=\"1.0\" encoding=\"UTF-8\"?>\n<pnml>\n<net id=\"net0\">\n");
        let n_places = self.num_places();
        let n_transitions = self.num_transitions();
        let ghost header = out@;
        let mut i: usize = 0;
        while i < n_places
            invariant
                v == self@,
                self@.wf(),
                n_places == v.n_places(),
                i <= n_places,
                out@ == header + spec_pnml_places(v, i as int),
            decreases n_places - i,
        {
            let elem = self.pnml_place_elem(i);
            push_str(&mut out, elem.as_str());
            proof {
                assert(spec_pnml_places(v, i + 1) == spec_pnml_places(v, i as int)
                    + spec_pnml_place(v, i as int));
                assert(out@ =~= header + spec_pnml_places(v, i + 1));
            }
            i = i + 1;
        }
        let ghost after_places = out@;
        let mut i: usize = 0;
        while i < n_transitions
            invariant
                v == self@,
                self@.wf(),
                n_transitions == v.n_transitions(),
                i <= n_transitions,
                out@ == after_places + spec_pnml_transitions(v, i as int),
            decreases n_transitions - i,
        {
            let elem = self.pnml_transition_elem(i);
            push_str(&mut out, elem.as_str());
            proof {
                assert(spec_pnml_transitions(v, i + 1) == spec_pnml_transitions(v, i as int)
                    + spec_pnml_transition(v, i as int));
                assert(out@ =~= after_places + spec_pnml_transitions(v, i + 1));
            }
            i = i + 1;
        }
        let ghost after_transitions = out@;
        let mut p: usize = 0;
        while p < n_places
            invariant
                v == self@,
                self@.wf(),
                n_places == v.n_places(),
                p <= n_places,
                out@ == after_transitions + spec_pnml_arcs_pt(v, p as int),
            decreases n_places - p,
        {
            let row_len = self.pt_row_len(p);
            let mut j: usize = 0;
            while j < row_len
                invariant
                    v == self@,
                    self@.wf(),
                    n_places == v.n_places(),
                    p < n_places,
                    row_len == v.pt[p as int].len(),
                    j <= row_len,
                    out@ == after_transitions + spec_pnml_arcs_pt(v, p as int) + spec_pnml_row_pt(
                        v,
                        p as int,
                        j as int,
                    ),
                decreases row_len - j,
            {
                let t = self.pt_entry(p, j);
                push_str(&mut out, "<arc id=\"ap");
                push_str(&mut out, dec_u64(p as u64).as_str());
                push_str(&mut out, "t");
                push_str(&mut out, dec_u64(t as u64).as_str());
                push_str(&mut out, "\" source=\"p");
                push_str(&mut out, dec_u64(p as u64).as_str());
                push_str(&mut out, "\" target=\"t");
                push_str(&mut out, dec_u64(t as u64).as_str());
                push_str(&mut out, "\"/>\n");
                proof {
                    assert(out@ =~= after_transitions + spec_pnml_arcs_pt(v, p as int)
                        + spec_pnml_row_pt(v, p as int, j + 1));
                }
                j = j + 1;
            }
            proof {
                assert(out@ =~= after_transitions + spec_pnml_arcs_pt(v, p + 1));
            }
            p = p + 1;
        }
        let ghost after_arcs_pt = out@;
        let mut t: usize = 0;
        while t < n_transitions
            invariant
                v == self@,
                self@.wf(),
                n_transitions == v.n_transitions(),
                t <= n_transitions,
                out@ == after_arcs_pt + spec_pnml_arcs_tp(v, t as int),
            decreases n_transitions - t,
        {
            let row_len = self.tp_row_len(t);
            let mut j: usize = 0;
            while j < row_len
                invariant
                    v == self@,
                    self@.wf(),
                    n_transitions == v.n_transitions(),
                    t < n_transitions,
                    row_len == v.tp[t as int].len(),
                    j <= row_len,
                    out@ == after_arcs_pt + spec_pnml_arcs_tp(v, t as int) + spec_pnml_row_tp(
                        v,
                        t as int,
                        j as int,
                    ),
                decreases row_len - j,
            {
                let p2 = self.tp_entry(t, j);
                push_str(&mut out, "<arc id=\"at");
                push_str(&mut out, dec_u64(t as u64).as_str());
                push_str(&mut out, "p");
                push_str(&mut out, dec_u64(p2 as u64).as_str());
                push_str(&mut out, "\" source=\"t");
                push_str(&mut out, dec_u64(t as u64).as_str());
                push_str(&mut out, "\" target=\"p");
                push_str(&mut out, dec_u64(p2 as u64).as_str());
                push_str(&mut out, "\"/>\n");
                proof {
                    assert(out@ =~= after_arcs_pt + spec_pnml_arcs_tp(v, t as int)
                        + spec_pnml_row_tp(v, t as int, j + 1));
                }
                j = j + 1;
            }
            proof {
                assert(out@ =~= after_arcs_pt + spec_pnml_arcs_tp(v, t + 1));
            }
            t = t + 1;
        }
        push_str(&mut out, "</net>\n</pnml>\n");
        proof {
            assert(out@ =~= spec_pnml(v));
        }
        out
    }
}

// ------------------------------------------------------------------ LoLA

/// One item of the place list.
pub open spec fn spec_lola_place_item(i: int) -> Seq<char> {
    (if i == 0 {
        "  p"@
    } else {
        ",\n  p"@
    }) + spec_dec(i)
}

/// The place list up to index `n`.
pub open spec fn spec_lola_places(n: int) -> Seq<char>
    decreases n,
{
    if n <= 0 {
        Seq::empty()
    } else {
        spec_lola_places(n - 1) + spec_lola_place_item(n - 1)
    }
}

/// One item of the marking list.
pub open spec fn spec_lola_marking_item(v: NetView, i: int) -> Seq<char> {
    (if i == 0 {
        "  p"@
    } else {
        ",\n  p"@
    }) + spec_dec(i) + ": "@ + spec_dec(v.marking[i] as int)
}

/// The marking list up to index `n`.
pub open spec fn spec_lola_marking(v: NetView, n: int) -> Seq<char>
    decreases n,
{
    if n <= 0 {
        Seq::empty()
    } else {
        spec_lola_marking(v, n - 1) + spec_lola_marking_item(v, n - 1)
    }
}

/// Some place before `p` also feeds transition `t`.
pub open spec fn spec_has_earlier_input(v: NetView, t: int, p: int) -> bool {
    exists|q: usize| q < p && #[trigger] v.has_pt(q, t as usize)
}

/// The consume list of transition `t` over the places up to `n`.
pub open spec fn spec_lola_consume(v: NetView, t: int, n: int) -> Seq<char>
    decreases n,
{
    if n <= 0 {
        Seq::empty()
    } else {
        spec_lola_consume(v, t, n - 1) + (if v.has_pt((n - 1) as usize, t as usize) {
            (if spec_has_earlier_input(v, t, n - 1) {
                ", "@
            } else {
                " "@
            }) + "p"@ + spec_dec(n - 1) + ": 1"@
        } else {
            Seq::<char>::empty()
        })
    }
}

/// The produce list of transition `t` over its row up to entry `j`.
pub open spec fn spec_lola_produce(v: NetView, t: int, j: int) -> Seq<char>
    decreases j,
{
    if j <= 0 {
        Seq::empty()
    } else {
        spec_lola_produce(v, t, j - 1) + (if j - 1 == 0 {
            " "@
        } else {
            ", "@
        }) + "p"@ + spec_dec(v.tp[t][j - 1] as int) + ": 1"@
    }
}

/// One LoLA transition declaration.
pub open spec fn spec_lola_transition(v: NetView, t: int) -> Seq<char> {
    "TRANSITION t"@ + spec_dec(t) + "\n  CONSUME"@ + spec_lola_consume(
        v,
        t,
        v.n_places() as int,
    ) + ";\n  PRODUCE"@ + spec_lola_produce(v, t, v.tp[t].len() as int) + ";\n"@
}

/// The transition declarations up to index `n`.
pub open spec fn spec_lola_transitions(v: NetView, n: int) -> Seq<char>
    decreases n,
{
    if n <= 0 {
        Seq::empty()
    } else {
        spec_lola_transitions(v, n - 1) + spec_lola_transition(v, n - 1)
    }
}

/// The whole LoLA document of a net.
pub open spec fn spec_lola(v: NetView) -> Seq<char> {
    "PLACE\n"@ + spec_lola_places(v.n_places() as int) + ";\n\nMARKING\n"@ + spec_lola_marking(
        v,
        v.n_places() as int,
    ) + ";\n\n"@ + spec_lola_transitions(v, v.n_transitions() as int)
}

impl PetriNet {
    fn lola_transition_elem(&self, t: usize) -> (r: String)
        requires
            self@.wf(),
            t < self@.n_transitions(),
        ensures
            r@ == spec_lola_transition(self@, t as int),
    {
        let ghost v = self@;
        let mut out = String::from_str("TRANSITION t");
        push_str(&mut out, dec_u64(t as u64).as_str());
        push_str(&mut out, "\n  CONSUME");
        let ghost before_consume = out@;
        let n_places = self.num_places();
        let mut p: usize = 0;
        let mut first: bool = true;
        while p < n_places
            invariant
                v == self@,
                self@.wf(),
                t < v.n_transitions(),
                n_places == v.n_places(),
                p <= n_places,
                first == !spec_has_earlier_input(v, t as int, p as int),
                out@ == before_consume + spec_lola_consume(v, t as int, p as int),
            decreases n_places - p,
        {
            let row_len = self.pt_row_len(p);
            let mut j: usize = 0;
            let mut found: bool = false;
            while j < row_len
                invariant
                    v == self@,
                    self@.wf(),
                    p < v.n_places(),
                    row_len == v.pt[p as int].len(),
                    j <= row_len,
                    found == exists|k: int| 0 <= k < j && v.pt[p as int][k] == t,
                decreases row_len - j,
            {
                if self.pt_entry(p, j) == t {
                    found = true;
                }
                j = j + 1;
            }
            proof {
                if found {
                    let k = choose|k: int| 0 <= k < row_len && v.pt[p as int][k] == t;
                    assert(v.has_pt(p, t));
                } else {
                    if v.has_pt(p, t) {
                        let k = choose|k: int|
                            0 <= k < v.pt[p as int].len() && v.pt[p as int][k] == t;
                    }
                }
                assert(found == v.has_pt(p, t));
            }
            if found {
                if first {
                    push_str(&mut out, " ");
                } else {
                    push_str(&mut out, ", ");
                }
                push_str(&mut out, "p");
                push_str(&mut out, dec_u64(p as u64).as_str());
                push_str(&mut out, ": 1");
                first = false;
            }
            proof {
                assert(out@ =~= before_consume + spec_lola_consume(v, t as int, p + 1));
                if v.has_pt(p, t) {
                    assert(spec_has_earlier_input(v, t as int, p + 1)) by {
                        assert(v.has_pt(p, t as usize));
                    }
                } else {
                    assert(spec_has_earlier_input(v, t as int, p + 1)
                        == spec_has_earlier_input(v, t as int, p as int)) by {
                        if spec_has_earlier_input(v, t as int, p + 1) {
                            let q = choose|q: usize| q < p + 1 && #[trigger] v.has_pt(q, t);
                            assert(q < p || q == p);
                        }
                    }
                }
            }
            p = p + 1;
        }
        push_str(&mut out, ";\n  PRODUCE");
        let ghost before_produce = out@;
        let row_len = self.tp_row_len(t);
        let mut j: usize = 0;
        while j < row_len
            invariant
                v == self@,
                self@.wf(),
                t < v.n_transitions(),
                row_len == v.tp[t as int].len(),
                j <= row_len,
                out@ == before_produce + spec_lola_produce(v, t as int, j as int),
            decreases row_len - j,
        {
            if j == 0 {
                push_str(&mut out, " ");
            } else {
                push_str(&mut out, ", ");
            }
            push_str(&mut out, "p");
            push_str(&mut out, dec_u64(self.tp_entry(t, j) as u64).as_str());
            push_str(&mut out, ": 1");
            proof {
                assert(out@ =~= before_produce + spec_lola_produce(v, t as int, j + 1));
            }
            j = j + 1;
        }
        push_str(&mut out, ";\n");
        proof {
            assert(out@ =~= spec_lola_transition(v, t as int));
        }
        out
    }

    /// Serialise the net as a LoLA net description.  The output is a
    /// function of the net's model alone, hence byte-identical across runs.
    pub fn to_lola(&self) -> (r: String)
        requires
            self@.wf(),
        ensures
            r@ == spec_lola(self@),
    {
        let ghost v = self@;
        let mut out = String::from_str("PLACE\n");
        let ghost header = out@;
        let n_places = self.num_places();
        let n_transitions = self.num_transitions();
        let mut i: usize = 0;
        while i < n_places
            invariant
                v == self@,
                self@.wf(),
                n_places == v.n_places(),
                i <= n_places,
                out@ == header + spec_lola_places(i as int),
            decreases n_places - i,
        {
            if i == 0 {
                push_str(&mut out, "  p");
            } else {
                push_str(&mut out, ",\n  p");
            }
            push_str(&mut out, dec_u64(i as u64).as_str());
            proof {
                assert(out@ =~= header + spec_lola_places(i + 1));
            }
            i = i + 1;
        }
        push_str(&mut out, ";\n\nMARKING\n");
        let ghost after_m = out@;
        let mut i: usize = 0;
        while i < n_places
            invariant
                v == self@,
                self@.wf(),
                n_places == v.n_places(),
                i <= n_places,
                out@ == after_m + spec_lola_marking(v, i as int),
            decreases n_places - i,
        {
            if i == 0 {
                push_str(&mut out, "  p");
            } else {
                push_str(&mut out, ",\n  p");
            }
            push_str(&mut out, dec_u64(i as u64).as_str());
            push_str(&mut out, ": ");
            push_str(&mut out, dec_u64(self.marking_at(i)).as_str());
            proof {
                assert(out@ =~= after_m + spec_lola_marking(v, i + 1));
            }
            i = i + 1;
        }
        push_str(&mut out, ";\n\n");
        let ghost after_t = out@;
        let mut t: usize = 0;
        while t < n_transitions
            invariant
                v == self@,
                self@.wf(),
                n_transitions == v.n_transitions(),
                t <= n_transitions,
                out@ == after_t + spec_lola_transitions(v, t as int),
            decreases n_transitions - t,
        {
            let elem = self.lola_transition_elem(t);
            push_str(&mut out, elem.as_str());
            proof {
                assert(out@ =~= after_t + spec_lola_transitions(v, t + 1));
            }
            t = t + 1;
        }
        proof {
            assert(out@ =~= spec_lola(v));
        }
        out
    }
}

// ------------------------------------------------------------------- DOT

/// The DOT label escape of one character.
pub open spec fn spec_dot_char(c: char) -> Seq<char> {
    if c == '"' {
        seq!['\\', '"']
    } else if c == '\\' {
        seq!['\\', '\\']
    } else {
        seq![c]
    }
}

/// The DOT label escape of a text.
pub open spec fn spec_dot_escape(s: Seq<char>) -> Seq<char>
    decreases s.len(),
{
    if s.len() == 0 {
        Seq::empty()
    } else {
        spec_dot_escape(s.drop_last()) + spec_dot_char(s.last())
    }
}

fn dot_escape(s: &str) -> (r: String)
    ensures
        r@ == spec_dot_escape(s@),
{
    let n = s.unicode_len();
    let mut out = String::new();
    let mut i: usize = 0;
    while i < n
        invariant
            n == s@.len(),
            i <= n,
            out@ == spec_dot_escape(s@.take(i as int)),
        decreases n - i,
    {
        let c = s.get_char(i);
        if c == '"' {
            out.append("\\\"");
            proof {
                reveal_strlit("\\\"");
            }
        } else if c == '\\' {
            out.append("\\\\");
            proof {
                reveal_strlit("\\\\");
            }
        } else {
            let piece = s.substring_char(i, i + 1);
            proof {
                assert(piece@ =~= seq![s@[i as int]]);
            }
            out.append(piece);
        }
        proof {
            let t1 = s@.take(i + 1);
            assert(t1.drop_last() =~= s@.take(i as int));
            assert(t1.last() == s@[i as int]);
            assert(out@ =~= spec_dot_escape(t1));
        }
        i = i + 1;
    }
    proof {
        assert(s@.take(n as int) =~= s@);
    }
    out
}

/// One DOT place node, a circle labelled with its name or its id.
pub open spec fn spec_dot_place(v: NetView, i: int) -> Seq<char> {
    "p"@ + spec_dec(i) + " [shape=circle label=\""@ + (match v.place_names[i] {
        Some(nm) => spec_dot_escape(nm),
        None => "p"@ + spec_dec(i),
    }) + "\"];\n"@
}

/// The place nodes up to index `n`.
pub open spec fn spec_dot_places(v: NetView, n: int) -> Seq<char>
    decreases n,
{
    if n <= 0 {
        Seq::empty()
    } else {
        spec_dot_places(v, n - 1) + spec_dot_place(v, n - 1)
    }
}

/// One DOT transition node, a box labelled with its name or its id.
pub open spec fn spec_dot_transition(v: NetView, i: int) -> Seq<char> {
    "t"@ + spec_dec(i) + " [shape=box label=\""@ + (match v.trans_names[i] {
        Some(nm) => spec_dot_escape(nm),
        None => "t"@ + spec_dec(i),
    }) + "\"];\n"@
}

/// The transition nodes up to index `n`.
pub open spec fn spec_dot_transitions(v: NetView, n: int) -> Seq<char>
    decreases n,
{
    if n <= 0 {
        Seq::empty()
    } else {
        spec_dot_transitions(v, n - 1) + spec_dot_transition(v, n - 1)
    }
}

/// The edges of one place's adjacency row, up to entry `j`.
pub open spec fn spec_dot_row_pt(v: NetView, p: int, j: int) -> Seq<char>
    decreases j,
{
    if j <= 0 {
        Seq::empty()
    } else {
        spec_dot_row_pt(v, p, j - 1) + "p"@ + spec_dec(p) + " -> t"@ + spec_dec(
            v.pt[p][j - 1] as int,
        ) + ";\n"@
    }
}

/// The place-to-transition edges of the rows up to `p`.
pub open spec fn spec_dot_edges_pt(v: NetView, p: int) -> Seq<char>
    decreases p,
{
    if p <= 0 {
        Seq::empty()
    } else {
        spec_dot_edges_pt(v, p - 1) + spec_dot_row_pt(v, p - 1, v.pt[p - 1].len() as int)
    }
}

/// The edges of one transition's adjacency row, up to entry `j`.
pub open spec fn spec_dot_row_tp(v: NetView, t: int, j: int) -> Seq<char>
    decreases j,
{
    if j <= 0 {
        Seq::empty()
    } else {
        spec_dot_row_tp(v, t, j - 1) + "t"@ + spec_dec(t) + " -> p"@ + spec_dec(
            v.tp[t][j - 1] as int,
        ) + ";\n"@
    }
}

/// The transition-to-place edges of the rows up to `t`.
pub open spec fn spec_dot_edges_tp(v: NetView, t: int) -> Seq<char>
    decreases t,
{
    if t <= 0 {
        Seq::empty()
    } else {
        spec_dot_edges_tp(v, t - 1) + spec_dot_row_tp(v, t - 1, v.tp[t - 1].len() as int)
    }
}

/// The whole DOT document of a net.
pub open spec fn spec_dot(v: NetView) -> Seq<char> {
    "digraph petrinet {\n"@ + spec_dot_places(v, v.n_places() as int) + spec_dot_transitions(
        v,
        v.n_transitions() as int,
    ) + spec_dot_edges_pt(v, v.n_places() as int) + spec_dot_edges_tp(
        v,
        v.n_transitions() as int,
    ) + "}\n"@
}

impl PetriNet {
    fn dot_place_elem(&self, i: usize) -> (r: String)
        requires
            self@.wf(),
            i < self@.n_places(),
        ensures
            r@ == spec_dot_place(self@, i as int),
    {
        let ghost v = self@;
        let mut out = String::from_str("p");
        push_str(&mut out, dec_u64(i as u64).as_str());
        push_str(&mut out, " [shape=circle label=\"");
        match self.place_name(i) {
            Some(nm) => {
                proof {
                    assert(v.place_names[i as int] == Some(nm@));
                }
                let esc = dot_escape(nm.as_str());
                push_str(&mut out, esc.as_str());
            },
            None => {
                proof {
                    assert(v.place_names[i as int] is None);
                }
                push_str(&mut out, "p");
                push_str(&mut out, dec_u64(i as u64).as_str());
            },
        }
        push_str(&mut out, "\"];\n");
        proof {
            assert(out@ =~= spec_dot_place(v, i as int));
        }
        out
    }

    fn dot_transition_elem(&self, i: usize) -> (r: String)
        requires
            self@.wf(),
            i < self@.n_transitions(),
        ensures
            r@ == spec_dot_transition(self@, i as int),
    {
        let ghost v = self@;
        let mut out = String::from_str("t");
        push_str(&mut out, dec_u64(i as u64).as_str());
        push_str(&mut out, " [shape=box label=\"");
        match self.transition_name(i) {
            Some(nm) => {
                proof {
                    assert(v.trans_names[i as int] == Some(nm@));
                }
                let esc = dot_escape(nm.as_str());
                push_str(&mut out, esc.as_str());
            },
            None => {
                proof {
                    assert(v.trans_names[i as int] is None);
                }
                push_str(&mut out, "t");
                push_str(&mut out, dec_u64(i as u64).as_str());
            },
        }
        push_str(&mut out, "\"];\n");
        proof {
            assert(out@ =~= spec_dot_transition(v, i as int));
        }
        out
    }

    /// Serialise the net as a DOT graph.  The output is a function of the
    /// net's model alone, hence byte-identical across runs.
    pub fn to_dot(&self) -> (r: String)
        requires
            self@.wf(),
        ensures
            r@ == spec_dot(self@),
    {
        let ghost v = self@;
        let mut out = String::from_str("digraph petrinet {\n");
        let ghost header = out@;
        let n_places = self.num_places();
        let n_transitions = self.num_transitions();
        let mut i: usize = 0;
        while i < n_places
            invariant
                v == self@,
                self@.wf(),
                n_places == v.n_places(),
                i <= n_places,
                out@ == header + spec_dot_places(v, i as int),
            decreases n_places - i,
        {
            let elem = self.dot_place_elem(i);
            push_str(&mut out, elem.as_str());
            proof {
                assert(out@ =~= header + spec_dot_places(v, i + 1));
            }
            i = i + 1;
        }
        let ghost after_places = out@;
        let mut i: usize = 0;
        while i < n_transitions
            invariant
                v == self@,
                self@.wf(),
                n_transitions == v.n_transitions(),
                i <= n_transitions,
                out@ == after_places + spec_dot_transitions(v, i as int),
            decreases n_transitions - i,
        {
            let elem = self.dot_transition_elem(i);
            push_str(&mut out, elem.as_str());
            proof {
                assert(out@ =~= after_places + spec_dot_transitions(v, i + 1));
            }
            i = i + 1;
        }
        let ghost after_transitions = out@;
        let mut p: usize = 0;
        while p < n_places
            invariant
                v == self@,
                self@.wf(),
                n_places == v.n_places(),
                p <= n_places,
                out@ == after_transitions + spec_dot_edges_pt(v, p as int),
            decreases n_places - p,
        {
            let row_len = self.pt_row_len(p);
            let mut j: usize = 0;
            while j < row_len
                invariant
                    v == self@,
                    self@.wf(),
                    n_places == v.n_places(),
                    p < n_places,
                    row_len == v.pt[p as int].len(),
                    j <= row_len,
                    out@ == after_transitions + spec_dot_edges_pt(v, p as int) + spec_dot_row_pt(
                        v,
                        p as int,
                        j as int,
                    ),
                decreases row_len - j,
            {
                push_str(&mut out, "p");
                push_str(&mut out, dec_u64(p as u64).as_str());
                push_str(&mut out, " -> t");
                push_str(&mut out, dec_u64(self.pt_entry(p, j) as u64).as_str());
                push_str(&mut out, ";\n");
                proof {
                    assert(out@ =~= after_transitions + spec_dot_edges_pt(v, p as int)
                        + spec_dot_row_pt(v, p as int, j + 1));
                }
                j = j + 1;
            }
            proof {
                assert(out@ =~= after_transitions + spec_dot_edges_pt(v, p + 1));
            }
            p = p + 1;
        }
        let ghost after_edges_pt = out@;
        let mut t: usize = 0;
        while t < n_transitions
            invariant
                v == self@,
                self@.wf(),
                n_transitions == v.n_transitions(),
                t <= n_transitions,
                out@ == after_edges_pt + spec_dot_edges_tp(v, t as int),
            decreases n_transitions - t,
        {
            let row_len = self.tp_row_len(t);
            let mut j: usize = 0;
            while j < row_len
                invariant
                    v == self@,
                    self@.wf(),
                    n_transitions == v.n_transitions(),
                    t < n_transitions,
                    row_len == v.tp[t as int].len(),
                    j <= row_len,
                    out@ == after_edges_pt + spec_dot_edges_tp(v, t as int) + spec_dot_row_tp(
                        v,
                        t as int,
                        j as int,
                    ),
                decreases row_len - j,
            {
                push_str(&mut out, "t");
                push_str(&mut out, dec_u64(t as u64).as_str());
                push_str(&mut out, " -> p");
                push_str(&mut out, dec_u64(self.tp_entry(t, j) as u64).as_str());
                push_str(&mut out, ";\n");
                proof {
                    assert(out@ =~= after_edges_pt + spec_dot_edges_tp(v, t as int)
                        + spec_dot_row_tp(v, t as int, j + 1));
                }
                j = j + 1;
            }
            proof {
                assert(out@ =~= after_edges_pt + spec_dot_edges_tp(v, t + 1));
            }
            t = t + 1;
        }
        push_str(&mut out, "}\n");
        proof {
            assert(out@ =~= spec_dot(v));
        }
        out
    }
}

/// Determinism of the exports: the serialised bytes are a function of the
/// net's model, so two runs over equal nets produce identical files.
pub proof fn lemma_export_deterministic(v1: NetView, v2: NetView)
    requires
        v1 == v2,
    ensures
        spec_pnml(v1) == spec_pnml(v2),
        spec_lola(v1) == spec_lola(v2),
        spec_dot(v1) == spec_dot(v2),
{
}

} // verus!
